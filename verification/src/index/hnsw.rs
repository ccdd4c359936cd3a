//! Hierarchical Navigable Small World (HNSW) index.
//!
//! HNSW is the approximate-nearest-neighbor graph of Malkov & Yashunin
//! (2018). Each point lives on layers `0..=l`, where `l` is drawn from a
//! geometric distribution; each layer is a graph that queries navigate by
//! greedy traversal, descending from the sparse top layer to the dense
//! bottom layer.
//!
//! The level of each new point is drawn by the caller and handed to
//! [`HnswIndex::insert`]; distances come from the caller's metric oracle.
//! Whatever levels and distances are supplied, every operation keeps the
//! graph well formed: neighbor IDs name stored points that live on the
//! layer, no point links to itself, no list repeats an ID, every list stays
//! within its degree bound, and the entry point is a point on the top layer.
//!
//! An insertion links the new point, when `m` is positive, to at least one
//! neighbor on every layer it shares with the graph, and each of those
//! neighbors links it back unless its own list is full of points no farther
//! from it; its neighbors on each layer are the first `m` results of a beam
//! search for it, entered where the greedy descent from the entry point, or
//! the search on the layer above, left off. A search descends greedily from
//! the entry point to the bottom layer and returns the first `k` results of
//! a beam search there: `k` distinct stored points sorted by distance (the
//! exact `k` nearest when the beam reaches fewer than `k`); when the oracle
//! never returns NaN, no bottom-layer neighbor of the first of them is closer
//! to the query. While the graph is small its bottom layer stays complete,
//! and a search on it is exact.

use std::collections::HashSet;
use vstd::prelude::*;
use crate::distance::Distance;
use crate::error::VexError;
use crate::ieee::lt;
use super::{dist_key, distinct_ids, measured, rows_measured, sorted_by_distance, total_metric, SearchResult};
use super::flat::{lemma_append_row, lemma_row_bounds, row_of};
use super::topk::{insert_by_distance, is_top_k, lemma_top_k_sorted_distinct, select_top_k};

verus! {

broadcast use vstd::std_specs::hash::group_hash_axioms;

/// Tunable parameters for HNSW construction and query.
#[derive(Debug, Clone, Copy, PartialEq, Eq, Structural)]
pub struct HnswParams {
    /// Number of bidirectional links per node on each layer above 0.
    pub m: usize,
    /// Maximum links per node on layer 0. Usually `2 * m`.
    pub m_max0: usize,
    /// Size of the dynamic candidate list during construction.
    pub ef_construction: usize,
    /// Default size of the dynamic candidate list during search.
    pub ef_search: usize,
    /// Random seed for reproducible level sampling.
    pub seed: u64,
}

impl Default for HnswParams {
    /// The parameter values recommended by Malkov & Yashunin (2018).
    fn default() -> (p: Self)
        ensures
            p == (HnswParams { m: 16, m_max0: 32, ef_construction: 200, ef_search: 50, seed: 0 }),
    {
        HnswParams { m: 16, m_max0: 32, ef_construction: 200, ef_search: 50, seed: 0 }
    }
}

/// The neighbor lists as plain sequences: `links[i][l]` lists the
/// neighbors of node `i` on layer `l`.
pub open spec fn links_view(nb: Seq<Vec<Vec<u64>>>) -> Seq<Seq<Seq<u64>>> {
    nb.map_values(|v: Vec<Vec<u64>>| v@.map_values(|w: Vec<u64>| w@))
}

/// The graph over `n` nodes is well formed: node `i` has one list per layer
/// `0..=levels[i]`; every listed neighbor is another stored node that lives
/// on that layer; no list repeats an ID.
pub open spec fn graph_ok(n: int, levels: Seq<u8>, links: Seq<Seq<Seq<u64>>>) -> bool {
    &&& levels.len() == n
    &&& links.len() == n
    &&& forall|i: int| 0 <= i < n ==> #[trigger] links[i].len() == levels[i] + 1
    &&& forall|i: int, l: int, j: int|
        0 <= i < n && 0 <= l < links[i].len() && 0 <= j < links[i][l].len() ==> {
            let x = #[trigger] links[i][l][j];
            &&& x < n
            &&& levels[x as int] >= l
            &&& x != i
        }
    &&& forall|i: int, l: int, a: int, b: int|
        0 <= i < n && 0 <= l < links[i].len() && 0 <= a < b < links[i][l].len() ==> #[trigger] links[i][l][a]
            != #[trigger] links[i][l][b]
}

/// The pruning threshold of a list on layer `l`.
pub open spec fn degree_cap(p: HnswParams, l: int) -> int {
    if l == 0 {
        p.m_max0 as int
    } else {
        p.m as int
    }
}

/// The most neighbors a list on layer `l` can hold: a node's own list has at
/// most `m` entries, and a list that grows past the threshold is pruned to it.
pub open spec fn degree_bound(p: HnswParams, l: int) -> int {
    if p.m >= degree_cap(p, l) {
        p.m as int
    } else {
        degree_cap(p, l)
    }
}

/// Every neighbor list is within its degree bound.
pub open spec fn degrees_ok(p: HnswParams, links: Seq<Seq<Seq<u64>>>) -> bool {
    forall|i: int, l: int|
        0 <= i < links.len() && 0 <= l < links[i].len() ==> #[trigger] links[i][l].len() <= degree_bound(p, l)
}

/// The entry point exists exactly when the index is non-empty, and it lives on
/// the top layer, which no node exceeds.
pub open spec fn entry_ok(n: int, levels: Seq<u8>, entry: Option<u64>, max_level: u8) -> bool {
    &&& (entry is None <==> n == 0)
    &&& entry matches Some(e) ==> e < n && levels[e as int] == max_level
    &&& forall|i: int| 0 <= i < n ==> #[trigger] levels[i] <= max_level
    &&& n == 0 ==> max_level == 0
}

/// Some list on layer `layer` names node `x`.
pub open spec fn linked_at(links: Seq<Seq<Seq<u64>>>, layer: int, x: u64) -> bool {
    exists|i: int, j: int|
        0 <= i < links.len() && 0 <= layer < links[i].len() && 0 <= j < links[i][layer].len() && #[trigger] links[i][layer][j]
            == x
}

/// No list on a layer at or below `layer` names `x`.
pub open spec fn absent_below(links: Seq<Seq<Seq<u64>>>, layer: int, x: u64) -> bool {
    forall|i: int, l: int, j: int|
        0 <= i < links.len() && 0 <= l < links[i].len() && l <= layer && 0 <= j < links[i][l].len() ==> #[trigger] links[i][l][j]
            != x
}

/// Going from `before` to `after`, the lists of every node other than `x`
/// kept their layers and gained no neighbor except `x`.
pub open spec fn gained_only(before: Seq<Seq<Seq<u64>>>, after: Seq<Seq<Seq<u64>>>, x: u64) -> bool {
    &&& after.len() == before.len()
    &&& forall|i: int| 0 <= i < before.len() && i != x ==> (#[trigger] after[i]).len() == before[i].len()
    &&& forall|i: int, l: int, y: u64|
        0 <= i < before.len() && i != x && 0 <= l < before[i].len() && #[trigger] after[i][l].contains(y)
            ==> before[i][l].contains(y) || y == x
}

/// The highest layer on which an insertion of a node at `level` links it:
/// `-1` for the first node, else the lower of `level` and the top layer.
pub open spec fn top_linked_layer(entry: Option<u64>, max_level: u8, level: u8) -> int {
    if entry is None {
        -1
    } else if level < max_level {
        level as int
    } else {
        max_level as int
    }
}

/// Node `x`, whose list on a layer was `before`, was linked to `id` there:
/// the list became `before` with `id` appended when that fits in `cap`
/// entries; otherwise it was pruned to the `cap` nearest of those nodes
/// (measured from `x`), nearest first, each kept one no farther than any
/// dropped one.
pub open spec fn joined_or_pruned<T, F: Fn(&[T], &[T]) -> u32>(
    f: F,
    rows: Seq<Seq<T>>,
    before: Seq<u64>,
    after: Seq<u64>,
    x: u64,
    id: u64,
    cap: int,
) -> bool {
    let w = before.push(id);
    if w.len() <= cap {
        after == w
    } else {
        &&& after.len() == cap
        &&& forall|z: u64| after.contains(z) ==> w.contains(z)
        &&& nearest_first(f, rows[x as int], rows, after)
        &&& forall|a: int, r: int|
            0 <= a < after.len() && 0 <= r < w.len() && !after.contains(w[r]) ==> no_farther(
                f,
                rows[x as int],
                rows[#[trigger] after[a] as int],
                rows[#[trigger] w[r] as int],
            )
    }
}

/// Every neighbor that node `id` lists on a layer up to `top` was linked back
/// to it ([`joined_or_pruned`], with the pruning threshold of the layer),
/// from its list in `before`.
pub open spec fn linked_back<T, F: Fn(&[T], &[T]) -> u32>(
    f: F,
    rows: Seq<Seq<T>>,
    before: Seq<Seq<Seq<u64>>>,
    links: Seq<Seq<Seq<u64>>>,
    id: u64,
    top: int,
    p: HnswParams,
) -> bool {
    forall|y: int, j: int|
        0 <= y <= top && 0 <= j < links[id as int][y].len() ==> {
            let x = #[trigger] links[id as int][y][j];
            joined_or_pruned(f, rows, before[x as int][y], links[x as int][y], x, id, degree_cap(p, y))
        }
}

/// How an insertion of node `id` at `level` changed the lists: the node got
/// one list per layer `0..=level`, each with at most `m` neighbors, empty
/// above layer `top` and, when `m` is positive, not empty up to it, naming
/// only nodes stored before it; every other node kept its layers and gained
/// no neighbor except `id`.
pub open spec fn insert_links_post(
    before: Seq<Seq<Seq<u64>>>,
    after: Seq<Seq<Seq<u64>>>,
    id: u64,
    level: u8,
    top: int,
    m: usize,
) -> bool {
    &&& id == before.len()
    &&& after.len() == before.len() + 1
    &&& after[id as int].len() == level + 1
    &&& forall|y: int| 0 <= y <= level ==> (#[trigger] after[id as int][y]).len() <= m
    &&& forall|y: int| top < y <= level ==> (#[trigger] after[id as int][y]).len() == 0
    &&& m > 0 ==> forall|y: int| 0 <= y <= top ==> (#[trigger] after[id as int][y]).len() > 0
    &&& forall|y: int, j: int| 0 <= y <= level && 0 <= j < after[id as int][y].len() ==> #[trigger] after[id as int][y][j] < id
    &&& forall|i: int| 0 <= i < before.len() ==> (#[trigger] after[i]).len() == before[i].len()
    &&& forall|i: int, y: int, z: u64|
        0 <= i < before.len() && 0 <= y < before[i].len() && #[trigger] after[i][y].contains(z)
            ==> before[i][y].contains(z) || z == id
}

/// `hits` are at most `k` distinct stored vectors, at least one when `k` is
/// positive, sorted by distance, each carrying a distance that the oracle `f`
/// returned for the query `q` and that vector.
pub open spec fn approximate_hits<T, F: Fn(&[T], &[T]) -> u32>(
    f: F,
    q: Seq<T>,
    rows: Seq<Seq<T>>,
    k: int,
    hits: Seq<SearchResult>,
) -> bool {
    &&& hits.len() <= k
    &&& k > 0 ==> hits.len() > 0
    &&& sorted_by_distance(hits)
    &&& distinct_ids(hits)
    &&& forall|i: int|
        0 <= i < hits.len() ==> (#[trigger] hits[i]).id < rows.len() && measured(f, q, rows[hits[i].id as int], hits[i].distance)
}

/// Some distance that the oracle `f` returned for the query `q` and the
/// vector `row` is not below `bound`.
pub open spec fn no_closer<T, F: Fn(&[T], &[T]) -> u32>(f: F, q: Seq<T>, row: Seq<T>, bound: u32) -> bool {
    exists|d: u32| #[trigger] measured(f, q, row, d) && !crate::ieee::spec_lt(d, bound)
}

/// The oracle never returns the bit pattern of a NaN.
pub open spec fn never_nan<T, F: Fn(&[T], &[T]) -> u32>(f: F) -> bool {
    forall|x: &[T], y: &[T], d: u32| #[trigger] call_ensures(f, (x, y), d) ==> !crate::ieee::spec_is_nan(d)
}

/// A set that holds the entries and that no list leads out of holds every
/// node on a path from the entries.
pub proof fn lemma_closed_holds_paths(lay: Seq<Seq<u64>>, entries: Seq<u64>, v: Set<u64>, x: u64, p: Seq<u64>)
    requires
        closed_on(lay, v),
        forall|i: int| 0 <= i < entries.len() ==> v.contains(#[trigger] entries[i]),
        path_to(lay, entries, x, p),
    ensures
        v.contains(x),
    decreases p.len(),
{
    if p.len() == 1 {
        let i = choose|i: int| 0 <= i < entries.len() && entries[i] == p[0];
        assert(v.contains(entries[i]));
    } else {
        let q = p.drop_last();
        let y = q.last();
        assert forall|i: int| 0 < i < q.len() implies #[trigger] path_step(lay, q, i) by {
            assert(path_step(lay, p, i));
        }
        assert(path_to(lay, entries, y, q));
        lemma_closed_holds_paths(lay, entries, v, y, q);
        assert(path_step(lay, p, p.len() - 1));
        let j = choose|j: int| 0 <= j < lay[y as int].len() && lay[y as int][j] == x;
        assert(v.contains(lay[y as int][j]));
    }
}

/// When the oracle never returns NaN, the first node a beam search returns
/// is no farther from the query than any of its entry points.
pub proof fn lemma_beam_first_beats_entries<T, F: Fn(&[T], &[T]) -> u32>(
    f: F,
    q: Seq<T>,
    rows: Seq<Seq<T>>,
    lay: Seq<Seq<u64>>,
    entries: Seq<u64>,
    width: int,
    out: Seq<SearchResult>,
    i: int,
)
    requires
        beam_outcome(f, q, rows, lay, entries, width, out),
        never_nan(f),
        out.len() > 0,
        0 <= i < entries.len(),
    ensures
        exists|d: u32| #[trigger] measured(f, q, rows[entries[i] as int], d) && dist_key(out[0].distance) <= dist_key(d),
{
    let (v, dm) = choose|v: Set<u64>, dm: Map<u64, u32>| #[trigger] beam_measured(f, q, rows, lay, entries, width, out, v, dm);
    let e = entries[i];
    assert(v.contains(e));
    assert(measured(f, q, rows[e as int], dm[e]));
    if super::topk::has_id(out, e as int) {
        let j = choose|j: int| 0 <= j < out.len() && out[j].id == e as int;
        assert(out[j].id == e);
        if j > 0 {
            assert(dist_key(out[0].distance) <= dist_key(out[j].distance));
        }
    } else {
        let last = out.len() - 1;
        if last > 0 {
            assert(dist_key(out[0].distance) <= dist_key(out[last].distance));
        }
    }
}

/// A beam search whose width covers every node reachable from its entry
/// points returns exactly those nodes.
pub proof fn lemma_beam_exhaustive<T, F: Fn(&[T], &[T]) -> u32>(
    f: F,
    q: Seq<T>,
    rows: Seq<Seq<T>>,
    lay: Seq<Seq<u64>>,
    entries: Seq<u64>,
    width: int,
    out: Seq<SearchResult>,
    reach: Set<u64>,
)
    requires
        beam_outcome(f, q, rows, lay, entries, width, out),
        forall|x: u64| #[trigger] reach.contains(x) <==> reachable(lay, entries, x),
        reach.finite(),
        reach.len() <= width,
    ensures
        forall|x: u64| #[trigger] reachable(lay, entries, x) <==> super::topk::has_id(out, x as int),
{
    let (v, dm) = choose|v: Set<u64>, dm: Map<u64, u32>| #[trigger] beam_measured(f, q, rows, lay, entries, width, out, v, dm);
    if out.len() < width {
        assert forall|x: u64| #[trigger] reachable(lay, entries, x) implies super::topk::has_id(out, x as int) by {
            let p = choose|p: Seq<u64>| path_to(lay, entries, x, p);
            lemma_closed_holds_paths(lay, entries, v, x, p);
        }
    } else {
        let ids = out.map_values(|h: SearchResult| h.id);
        assert(ids.no_duplicates()) by {
            assert forall|a: int, b: int| 0 <= a < ids.len() && 0 <= b < ids.len() && a != b implies ids[a] != ids[b] by {
                if a < b {
                    assert(out[a].id != out[b].id);
                } else {
                    assert(out[b].id != out[a].id);
                }
            }
        }
        ids.unique_seq_to_set();
        let s = ids.to_set();
        assert forall|x: u64| s.contains(x) implies reach.contains(x) by {
            let j = choose|j: int| 0 <= j < ids.len() && ids[j] == x;
            assert(v.contains(out[j].id));
        }
        vstd::set_lib::lemma_len_subset(s, reach);
        vstd::set_lib::lemma_subset_equality(s, reach);
        assert forall|x: u64| #[trigger] reachable(lay, entries, x) implies super::topk::has_id(out, x as int) by {
            assert(reach.contains(x));
            assert(s.contains(x));
            let j = choose|j: int| 0 <= j < ids.len() && ids[j] == x;
            assert(out[j].id == x);
        }
    }
    assert forall|x: u64| super::topk::has_id(out, x as int) implies #[trigger] reachable(lay, entries, x) by {
        let j = choose|j: int| 0 <= j < out.len() && out[j].id == x as int;
        assert(v.contains(out[j].id));
    }
}

/// A search whose width covers every node reachable from its entry points
/// is exact on them: taking the first `k` of its result gives `k` of those
/// nodes (all of them when there are fewer), and, when the oracle never
/// returns NaN, every reachable node left out is no nearer than the last
/// one taken.
pub proof fn lemma_covering_search_is_exact<T, F: Fn(&[T], &[T]) -> u32>(
    f: F,
    q: Seq<T>,
    rows: Seq<Seq<T>>,
    lay: Seq<Seq<u64>>,
    entries: Seq<u64>,
    width: int,
    out: Seq<SearchResult>,
    reach: Set<u64>,
    k: int,
    hits: Seq<SearchResult>,
)
    requires
        beam_outcome(f, q, rows, lay, entries, width, out),
        forall|x: u64| #[trigger] reach.contains(x) <==> reachable(lay, entries, x),
        reach.finite(),
        reach.len() <= width,
        k >= 1,
        hits == out.take(if out.len() < k { out.len() as int } else { k }),
    ensures
        hits.len() == if reach.len() < k { reach.len() as int } else { k },
        never_nan(f) ==> forall|x: u64|
            #[trigger] reach.contains(x) && !super::topk::has_id(hits, x as int) ==> exists|d: u32|
                #[trigger] measured(f, q, rows[x as int], d) && dist_key(hits.last().distance) <= dist_key(d),
{
    lemma_beam_exhaustive(f, q, rows, lay, entries, width, out, reach);
    let (v, dm) = choose|v: Set<u64>, dm: Map<u64, u32>| #[trigger] beam_measured(f, q, rows, lay, entries, width, out, v, dm);
    let ids = out.map_values(|h: SearchResult| h.id);
    assert(ids.no_duplicates()) by {
        assert forall|a: int, b: int| 0 <= a < ids.len() && 0 <= b < ids.len() && a != b implies ids[a] != ids[b] by {
            if a < b {
                assert(out[a].id != out[b].id);
            } else {
                assert(out[b].id != out[a].id);
            }
        }
    }
    ids.unique_seq_to_set();
    assert(ids.to_set() =~= reach) by {
        assert forall|x: u64| ids.to_set().contains(x) <==> reach.contains(x) by {
            if reach.contains(x) {
                assert(super::topk::has_id(out, x as int));
                let j = choose|j: int| 0 <= j < out.len() && out[j].id == x as int;
                assert(ids[j] == x);
            }
            if ids.to_set().contains(x) {
                let j = choose|j: int| 0 <= j < ids.len() && ids[j] == x;
                assert(super::topk::has_id(out, x as int));
            }
        }
    }
    if never_nan(f) {
        assert forall|x: u64| #[trigger] reach.contains(x) && !super::topk::has_id(hits, x as int) implies exists|d: u32|
            #[trigger] measured(f, q, rows[x as int], d) && dist_key(hits.last().distance) <= dist_key(d) by {
            assert(super::topk::has_id(out, x as int));
            let j = choose|j: int| 0 <= j < out.len() && out[j].id == x as int;
            assert(v.contains(out[j].id));
            assert(measured(f, q, rows[x as int], dm[x]));
            if j < hits.len() {
                assert(hits[j] == out[j]);
                assert(false);
            }
            let hl = hits.len() - 1;
            assert(hits.last() == out[hl]);
            assert(dist_key(out[hl].distance) <= dist_key(out[j].distance));
        }
    }
}

/// Every node lists every other node on the bottom layer.
pub open spec fn bottom_complete(links: Seq<Seq<Seq<u64>>>) -> bool {
    forall|i: int, j: u64| 0 <= i < links.len() && j < links.len() && i != j ==> #[trigger] links[i][0].contains(j)
}

/// The IDs below `n`, as a set of `n` elements.
pub proof fn lemma_ids_below(n: nat) -> (s: Set<u64>)
    requires
        n <= u64::MAX + 1,
    ensures
        s.finite(),
        s.len() == n,
        forall|x: u64| #[trigger] s.contains(x) <==> x < n,
    decreases n,
{
    if n == 0 {
        Set::empty()
    } else {
        let s0 = lemma_ids_below((n - 1) as nat);
        let s = s0.insert((n - 1) as u64);
        assert(!s0.contains((n - 1) as u64));
        assert forall|x: u64| #[trigger] s.contains(x) <==> x < n by {}
        s
    }
}

/// A path from entries below `n`, in a graph whose lists below `n` name only
/// nodes below `n`, stays below `n`.
pub proof fn lemma_path_stays_below(lay: Seq<Seq<u64>>, entries: Seq<u64>, x: u64, p: Seq<u64>, n: int)
    requires
        path_to(lay, entries, x, p),
        forall|i: int| 0 <= i < entries.len() ==> #[trigger] entries[i] < n,
        forall|i: int, j: int| 0 <= i < n && i < lay.len() && 0 <= j < lay[i].len() ==> #[trigger] lay[i][j] < n,
    ensures
        x < n,
    decreases p.len(),
{
    if p.len() == 1 {
        let i = choose|i: int| 0 <= i < entries.len() && entries[i] == p[0];
        assert(entries[i] < n);
    } else {
        let q = p.drop_last();
        let y = q.last();
        assert forall|i: int| 0 < i < q.len() implies #[trigger] path_step(lay, q, i) by {
            assert(path_step(lay, p, i));
        }
        assert(path_to(lay, entries, y, q));
        lemma_path_stays_below(lay, entries, y, q, n);
        assert(path_step(lay, p, p.len() - 1));
        let j = choose|j: int| 0 <= j < lay[y as int].len() && lay[y as int][j] == x;
        assert(lay[y as int][j] < n);
    }
}

/// In a graph whose bottom layer is complete, every stored node is reachable
/// on that layer from any stored node, and from nothing else.
pub proof fn lemma_complete_bottom_reach(links: Seq<Seq<Seq<u64>>>, n: int, start: u64, x: u64)
    requires
        links.len() == n,
        bottom_complete(links),
        forall|i: int| 0 <= i < n ==> #[trigger] links[i].len() > 0,
        forall|i: int, j: int| 0 <= i < n && 0 <= j < links[i][0].len() ==> #[trigger] links[i][0][j] < n,
        start < n,
    ensures
        reachable(layer_lists(links, 0), seq![start], x) <==> x < n,
{
    let lay = layer_lists(links, 0);
    assert(seq![start][0] == start);
    if x < n {
        lemma_entry_reachable(lay, seq![start], 0);
        if x != start {
            assert(links[start as int][0].contains(x));
            assert(lay[start as int] == links[start as int][0]);
            lemma_reach_step(lay, seq![start], start, x);
        }
    }
    if reachable(lay, seq![start], x) {
        let p = choose|p: Seq<u64>| path_to(lay, seq![start], x, p);
        assert forall|i: int, j: int| 0 <= i < n && i < lay.len() && 0 <= j < lay[i].len() implies #[trigger] lay[i][j] < n by {
            assert(lay[i] == links[i][0]);
        }
        lemma_path_stays_below(lay, seq![start], x, p, n);
    }
}

/// Measured from `from`, the vector `a` is no farther than `b`: for some
/// distances that the oracle `f` returned for the two pairs, the first ranks
/// at or below the second.
pub open spec fn no_farther<T, F: Fn(&[T], &[T]) -> u32>(f: F, from: Seq<T>, a: Seq<T>, b: Seq<T>) -> bool {
    exists|da: u32, db: u32| #[trigger] measured(f, from, a, da) && #[trigger] measured(f, from, b, db) && dist_key(da) <= dist_key(db)
}

/// The nodes `ids` are listed nearest first from `from`: for some distances
/// that the oracle `f` returned for them, in ascending rank.
pub open spec fn nearest_first<T, F: Fn(&[T], &[T]) -> u32>(f: F, from: Seq<T>, rows: Seq<Seq<T>>, ids: Seq<u64>) -> bool {
    exists|ds: Seq<u32>|
        ds.len() == ids.len() && (forall|a: int| 0 <= a < ids.len() ==> measured(f, from, rows[ids[a] as int], #[trigger] ds[a]))
            && (forall|a: int, b: int| 0 <= a < b < ids.len() ==> dist_key(#[trigger] ds[a]) <= dist_key(#[trigger] ds[b]))
}

/// `p` is a greedy descent on `layer` from `entry`: it starts at `entry`,
/// every step carries a distance that the oracle `f` returned for the query
/// `q` and that node, and every step follows a link of the layer to a node
/// strictly closer (IEEE `<`) than the one before.
pub open spec fn descent<T, F: Fn(&[T], &[T]) -> u32>(
    f: F,
    q: Seq<T>,
    rows: Seq<Seq<T>>,
    links: Seq<Seq<Seq<u64>>>,
    layer: int,
    entry: u64,
    p: Seq<SearchResult>,
) -> bool {
    &&& p.len() > 0
    &&& p[0].id == entry
    &&& forall|i: int| 0 <= i < p.len() ==> measured(f, q, rows[(#[trigger] p[i]).id as int], p[i].distance)
    &&& forall|i: int|
        0 < i < p.len() ==> links[p[i - 1].id as int][layer].contains((#[trigger] p[i]).id) && crate::ieee::spec_lt(
            p[i].distance,
            p[i - 1].distance,
        )
}

/// The lists of one layer, by node: node `x`'s neighbors on `layer`, or no
/// neighbor when `x` does not live on it.
pub open spec fn layer_lists(links: Seq<Seq<Seq<u64>>>, layer: int) -> Seq<Seq<u64>> {
    Seq::new(links.len(), |x: int| if 0 <= layer < links[x].len() { links[x][layer] } else { Seq::empty() })
}

/// Step `i` of the path `p` follows a list of the graph `lay`: node
/// `p[i - 1]` lists `p[i]`.
pub open spec fn path_step(lay: Seq<Seq<u64>>, p: Seq<u64>, i: int) -> bool {
    0 <= p[i - 1] < lay.len() && lay[p[i - 1] as int].contains(p[i])
}

/// `p` is a path from `entries` to `x` in the graph `lay`.
pub open spec fn path_to(lay: Seq<Seq<u64>>, entries: Seq<u64>, x: u64, p: Seq<u64>) -> bool {
    &&& p.len() > 0
    &&& entries.contains(p[0])
    &&& p.last() == x
    &&& forall|i: int| 0 < i < p.len() ==> #[trigger] path_step(lay, p, i)
}

/// Node `x` is reachable from `entries` in the graph `lay`: some path starts
/// at an entry, ends at `x`, and each of its steps follows a list of `lay`.
pub open spec fn reachable(lay: Seq<Seq<u64>>, entries: Seq<u64>, x: u64) -> bool {
    exists|p: Seq<u64>| #[trigger] path_to(lay, entries, x, p)
}

/// No list of `lay` leads out of `v`.
pub open spec fn closed_on(lay: Seq<Seq<u64>>, v: Set<u64>) -> bool {
    forall|x: u64, j: int|
        v.contains(x) && 0 <= x < lay.len() && 0 <= j < lay[x as int].len() ==> v.contains(#[trigger] lay[x as int][j])
}

/// A beam search of width `width` from `entries` in the graph `lay` measured
/// the nodes `v`, with the distances `dm`, and returned `out`: every entry
/// was measured and every measured node is reachable; `out` lists measured
/// nodes with their distances, distinct and sorted, at most `width` of them;
/// when fewer than `width` came out, the search ran out of nodes: `v` is
/// closed under the lists and every measured node is in `out`; and when the
/// oracle never returns NaN, no measured node left out of `out` ranks before
/// the last of `out`, and every measured node that ranks before the last of
/// `out` was expanded: all its neighbors were measured (the search stops only
/// once no open candidate ranks before the last result).
pub open spec fn beam_measured<T, F: Fn(&[T], &[T]) -> u32>(
    f: F,
    q: Seq<T>,
    rows: Seq<Seq<T>>,
    lay: Seq<Seq<u64>>,
    entries: Seq<u64>,
    width: int,
    out: Seq<SearchResult>,
    v: Set<u64>,
    dm: Map<u64, u32>,
) -> bool {
    &&& v.finite()
    &&& dm.dom() == v
    &&& forall|i: int| 0 <= i < entries.len() ==> v.contains(#[trigger] entries[i])
    &&& forall|x: u64| #[trigger] v.contains(x) ==> reachable(lay, entries, x) && measured(f, q, rows[x as int], dm[x])
    &&& sorted_by_distance(out)
    &&& distinct_ids(out)
    &&& out.len() <= width
    &&& forall|j: int| 0 <= j < out.len() ==> v.contains((#[trigger] out[j]).id) && dm[out[j].id] == out[j].distance
    &&& out.len() < width ==> closed_on(lay, v) && forall|x: u64| #[trigger] v.contains(x) ==> super::topk::has_id(out, x as int)
    &&& never_nan(f) ==> forall|x: u64|
        #[trigger] v.contains(x) && !super::topk::has_id(out, x as int) ==> dist_key(dm[x]) >= dist_key(out.last().distance)
    &&& never_nan(f) && out.len() > 0 ==> expanded_before(lay, v, dm, out.last().distance)
}

/// Every node of `v` that ranks strictly before `bound` has all its
/// neighbors in `lay` in `v`.
pub open spec fn expanded_before(lay: Seq<Seq<u64>>, v: Set<u64>, dm: Map<u64, u32>, bound: u32) -> bool {
    forall|x: u64, j: int|
        v.contains(x) && dist_key(dm[x]) < dist_key(bound) && 0 <= x < lay.len() && 0 <= j < lay[x as int].len() ==> v.contains(
            #[trigger] lay[x as int][j],
        )
}

/// `out` is what a beam search of width `width` from `entries` in the graph
/// `lay` returns, for some set of measured nodes (see [`beam_measured`]).
pub open spec fn beam_outcome<T, F: Fn(&[T], &[T]) -> u32>(
    f: F,
    q: Seq<T>,
    rows: Seq<Seq<T>>,
    lay: Seq<Seq<u64>>,
    entries: Seq<u64>,
    width: int,
    out: Seq<SearchResult>,
) -> bool {
    exists|v: Set<u64>, dm: Map<u64, u32>| #[trigger] beam_measured(f, q, rows, lay, entries, width, out, v, dm)
}

/// The IDs of the first `m` hits (all of them when there are fewer).
pub open spec fn first_ids(hits: Seq<SearchResult>, m: int) -> Seq<u64> {
    hits.take(if hits.len() < m { hits.len() as int } else { m }).map_values(|h: SearchResult| h.id)
}

/// The IDs of the hits, in order.
pub open spec fn ids_of(hits: Seq<SearchResult>) -> Seq<u64> {
    hits.map_values(|h: SearchResult| h.id)
}

/// On layer `y` of the graph `g`, a beam search of width `width` for `q`
/// from `entries` returned `out`, and `list` is its first `m` IDs, nearest
/// first.
pub open spec fn layer_found<T, F: Fn(&[T], &[T]) -> u32>(
    f: F,
    q: Seq<T>,
    rows: Seq<Seq<T>>,
    g: Seq<Seq<Seq<u64>>>,
    y: int,
    entries: Seq<u64>,
    width: int,
    m: int,
    out: Seq<SearchResult>,
    list: Seq<u64>,
) -> bool {
    beam_outcome(f, q, rows, layer_lists(g, y), entries, width, out) && list == first_ids(out, m)
}

/// The searches that placed a node with vector `q` on layers `0..=top` of
/// the graph `g`: the greedy descent from `entry` through the layers from
/// `cur_max` down to `top + 1` ended at `ep`; on layer `top` a beam search
/// from `ep`, and on each layer below one from the nodes found on the layer
/// above, returned `outs[y]`, a non-empty list of nodes stored before the
/// new one; and on each layer the node lists (`lists[y]`) the first `m` of
/// them.
pub open spec fn placed_by_searches<T, F: Fn(&[T], &[T]) -> u32>(
    f: F,
    q: Seq<T>,
    rows: Seq<Seq<T>>,
    g: Seq<Seq<Seq<u64>>>,
    entry: u64,
    cur_max: int,
    top: int,
    width: int,
    m: int,
    lists: Seq<Seq<u64>>,
    outs: Seq<Seq<SearchResult>>,
    ep: u64,
) -> bool {
    &&& layered_descent(f, q, rows, g, entry, cur_max, top, ep)
    &&& outs.len() == top + 1
    &&& ep < g.len() - 1
    &&& forall|y: int| 0 <= y <= top ==> (#[trigger] outs[y]).len() > 0
    &&& forall|y: int, j: int| 0 <= y <= top && 0 <= j < outs[y].len() ==> (#[trigger] outs[y][j]).id < g.len() - 1
    &&& forall|y: int|
        0 <= y <= top ==> layer_found(
            f,
            q,
            rows,
            g,
            y,
            if y == top { seq![ep] } else { ids_of(outs[y + 1]) },
            width,
            m,
            #[trigger] outs[y],
            lists[y],
        )
}

/// The lists once a node living on layers `0..=level` is appended with no
/// neighbor yet.
pub open spec fn with_new_node(links: Seq<Seq<Seq<u64>>>, level: u8) -> Seq<Seq<Seq<u64>>> {
    links.push(Seq::new(level as nat + 1, |l: int| Seq::<u64>::empty()))
}

/// An entry point is reachable from itself.
#[verifier::spinoff_prover]
pub proof fn lemma_entry_reachable(lay: Seq<Seq<u64>>, entries: Seq<u64>, i: int)
    requires
        0 <= i < entries.len(),
    ensures
        reachable(lay, entries, entries[i]),
{
    let p = seq![entries[i]];
    assert(entries.contains(p[0]));
    assert(path_to(lay, entries, entries[i], p));
}

/// A node listed by a reachable node is reachable.
#[verifier::spinoff_prover]
pub proof fn lemma_reach_step(lay: Seq<Seq<u64>>, entries: Seq<u64>, x: u64, y: u64)
    requires
        reachable(lay, entries, x),
        0 <= x < lay.len(),
        lay[x as int].contains(y),
    ensures
        reachable(lay, entries, y),
{
    let p = choose|p: Seq<u64>| path_to(lay, entries, x, p);
    let p2 = p.push(y);
    assert(p2[0] == p[0]);
    assert forall|i: int| 0 < i < p2.len() implies #[trigger] path_step(lay, p2, i) by {
        if i < p.len() {
            assert(p2[i] == p[i]);
            assert(p2[i - 1] == p[i - 1]);
            assert(path_step(lay, p, i));
        } else {
            assert(p2[i - 1] == x);
            assert(p2[i] == y);
        }
    }
    assert(path_to(lay, entries, y, p2));
}

/// No neighbor of `c.id` on `layer` in the graph `links` is closer to `q`
/// than `c`: each has an oracle distance not below `c.distance`.
pub open spec fn local_min_in<T, F: Fn(&[T], &[T]) -> u32>(
    f: F,
    q: Seq<T>,
    rows: Seq<Seq<T>>,
    links: Seq<Seq<Seq<u64>>>,
    layer: int,
    c: SearchResult,
) -> bool {
    forall|j: int|
        0 <= j < links[c.id as int][layer].len() ==> no_closer(f, q, rows[#[trigger] links[c.id as int][layer][j] as int], c.distance)
}

/// Descending greedily from `entry` on layer `top` down to layer
/// `bottom + 1` ends at `end`: one greedy descent ([`descent`]) per layer,
/// each starting where the one on the layer above ended and ending at a
/// local minimum of its layer.
pub open spec fn layered_descent<T, F: Fn(&[T], &[T]) -> u32>(
    f: F,
    q: Seq<T>,
    rows: Seq<Seq<T>>,
    links: Seq<Seq<Seq<u64>>>,
    entry: u64,
    top: int,
    bottom: int,
    end: u64,
) -> bool
    decreases top - bottom,
{
    if top <= bottom {
        end == entry
    } else {
        exists|mid: u64, p: Seq<SearchResult>|
            layered_descent(f, q, rows, links, entry, top, bottom + 1, mid) && #[trigger] descent(f, q, rows, links, bottom + 1, mid, p)
                && p.last().id == end && local_min_in(f, q, rows, links, bottom + 1, p.last())
    }
}

/// Sets of IDs below `n` have at most `n` elements.
proof fn lemma_bounded_set_len(s: Set<u64>, n: nat)
    requires
        s.finite(),
        forall|x: u64| s.contains(x) ==> x < n,
    ensures
        s.len() <= n,
    decreases n,
{
    if n == 0 {
        assert(s =~= Set::<u64>::empty());
    } else {
        let top = (n - 1) as u64;
        let rest = s.remove(top);
        lemma_bounded_set_len(rest, (n - 1) as nat);
        if s.contains(top) {
            assert(s.len() == rest.len() + 1);
        } else {
            assert(rest =~= s);
        }
    }
}

/// HNSW index.
///
/// Stores all vectors in a flat buffer of length `n * dim` and keeps, per
/// node and per layer, the list of neighbor IDs. Node IDs are `0..n` in
/// insertion order.
#[derive(Debug, Clone)]
pub struct HnswIndex<T> {
    dim: usize,
    metric: Distance,
    params: HnswParams,
    data: Vec<T>,
    n: usize,
    levels: Vec<u8>,
    neighbors: Vec<Vec<Vec<u64>>>,
    entry_point: Option<u64>,
    max_level: u8,
}

impl<T: Copy> HnswIndex<T> {
    /// The stored vectors, in insertion order; vector `i` has ID `i`.
    pub closed spec fn rows(&self) -> Seq<Seq<T>> {
        Seq::new(self.n as nat, |i: int| row_of(self.data@, self.dim as nat, i))
    }

    /// The dimensionality of the stored vectors.
    pub closed spec fn spec_dim(&self) -> nat {
        self.dim as nat
    }

    /// The metric the index was created with.
    pub closed spec fn spec_metric(&self) -> Distance {
        self.metric
    }

    /// The construction and query parameters.
    pub closed spec fn spec_params(&self) -> HnswParams {
        self.params
    }

    /// `levels[i]` is the top layer of node `i`.
    pub closed spec fn spec_levels(&self) -> Seq<u8> {
        self.levels@
    }

    /// `links[i][l]` lists the neighbors of node `i` on layer `l`.
    pub closed spec fn links(&self) -> Seq<Seq<Seq<u64>>> {
        links_view(self.neighbors@)
    }

    /// The node where searches start.
    pub closed spec fn spec_entry_point(&self) -> Option<u64> {
        self.entry_point
    }

    /// The highest layer in the index.
    pub closed spec fn spec_max_level(&self) -> u8 {
        self.max_level
    }

    /// Buffer layout and graph shape: what searching needs.
    closed spec fn navigable(&self) -> bool {
        &&& self.data@.len() == self.n * self.dim
        &&& graph_ok(self.n as int, self.levels@, self.links())
    }

    /// The index is well formed.
    pub closed spec fn wf(&self) -> bool {
        &&& self.navigable()
        &&& degrees_ok(self.params, self.links())
        &&& entry_ok(self.n as int, self.levels@, self.entry_point, self.max_level)
    }

    /// `c` was reached by a search on `layer` from `entries`: it names a node
    /// on that layer, carries an oracle distance from `q` to it, and is an
    /// entry point or is listed by some node on that layer.
    pub closed spec fn reached<F: Fn(&[T], &[T]) -> u32>(
        &self,
        f: F,
        q: Seq<T>,
        entries: Seq<u64>,
        layer: int,
        c: SearchResult,
    ) -> bool {
        &&& c.id < self.n
        &&& self.levels@[c.id as int] >= layer
        &&& measured(f, q, self.rows()[c.id as int], c.distance)
        &&& (entries.contains(c.id) || linked_at(self.links(), layer, c.id))
    }

    /// No neighbor of `c.id` on `layer` is closer to `q` than `c`: each has an
    /// oracle distance not below `c.distance`.
    pub open spec fn local_minimum<F: Fn(&[T], &[T]) -> u32>(&self, f: F, q: Seq<T>, layer: int, c: SearchResult) -> bool {
        forall|j: int|
            0 <= j < self.links()[c.id as int][layer].len() ==> no_closer(
                f,
                q,
                self.rows()[#[trigger] self.links()[c.id as int][layer][j] as int],
                c.distance,
            )
    }

    /// What a well-formed index guarantees: one list per layer of each node,
    /// neighbors that are other stored nodes on the layer, no repeated
    /// neighbor, lists within their degree bounds, and an entry point on the
    /// top layer exactly when the index is non-empty.
    pub proof fn lemma_wf_unfolds(&self)
        requires
            self.wf(),
        ensures
            graph_ok(self.rows().len() as int, self.spec_levels(), self.links()),
            degrees_ok(self.spec_params(), self.links()),
            entry_ok(self.rows().len() as int, self.spec_levels(), self.spec_entry_point(), self.spec_max_level()),
    {
    }

    /// Save and load: the parts that the getters of a well-formed index hand
    /// out (its row buffer, levels, lists, entry point and top layer) are
    /// parts that [`HnswIndex::from_parts`] accepts, so a saved index loads
    /// back with the same vectors, graph and parameters.
    pub proof fn lemma_parts_rebuild(&self, data: Seq<T>, neighbors: Seq<Vec<Vec<u64>>>)
        requires
            self.wf(),
            data.len() == self.rows().len() * self.spec_dim(),
            links_view(neighbors) == self.links(),
        ensures
            Self::parts_ok(
                self.spec_dim() as usize,
                self.spec_params(),
                data,
                self.rows().len() as usize,
                self.spec_levels(),
                neighbors,
                self.spec_entry_point(),
                self.spec_max_level(),
            ),
    {
    }

    /// A search on an index whose bottom layer is complete, with a width of
    /// at least the number of stored vectors, is exact: when the oracle never
    /// returns NaN, no stored vector left out of the hits is nearer than the
    /// last hit.
    pub proof fn lemma_complete_bottom_search_is_exact<F: Fn(&[T], &[T]) -> u32>(
        &self,
        f: F,
        q: Seq<T>,
        k: usize,
        hits: Seq<SearchResult>,
    )
        requires
            self.wf(),
            bottom_complete(self.links()),
            self.search_post(f, q, k, hits),
            hits.len() == k,
            1 <= k <= self.rows().len(),
            self.rows().len() <= Self::search_width(self.spec_params(), k),
            never_nan(f),
        ensures
            forall|x: u64|
                x < self.rows().len() && !super::topk::has_id(hits, x as int) ==> exists|d: u32|
                    #[trigger] measured(f, q, self.rows()[x as int], d) && dist_key(hits.last().distance) <= dist_key(d),
    {
        let n = self.rows().len();
        let (start, out) = choose|start: u64, out: Seq<SearchResult>|
            start < self.rows().len() && layered_descent(
                f,
                q,
                self.rows(),
                self.links(),
                self.spec_entry_point().unwrap(),
                self.spec_max_level() as int,
                0,
                start,
            ) && #[trigger] beam_outcome(
                f,
                q,
                self.rows(),
                layer_lists(self.links(), 0),
                seq![start],
                Self::search_width(self.spec_params(), k),
                out,
            ) && (never_nan(f) && out.len() > 0 ==> self.local_minimum(f, q, 0, out[0])) && if k <= out.len() {
                hits == out.take(k as int)
            } else {
                super::flat::exact_top_k(f, q, self.rows(), k as int, hits)
            };
        if k <= out.len() {
            let reach = lemma_ids_below(n);
            assert forall|x: u64| #[trigger] reach.contains(x) <==> reachable(layer_lists(self.links(), 0), seq![start], x) by {
                lemma_complete_bottom_reach(self.links(), n as int, start, x);
            }
            lemma_covering_search_is_exact(
                f,
                q,
                self.rows(),
                layer_lists(self.links(), 0),
                seq![start],
                Self::search_width(self.spec_params(), k),
                out,
                reach,
                k as int,
                hits,
            );
            assert forall|x: u64| x < n && !super::topk::has_id(hits, x as int) implies exists|d: u32|
                #[trigger] measured(f, q, self.rows()[x as int], d) && dist_key(hits.last().distance) <= dist_key(d) by {
                assert(reach.contains(x));
            }
        } else {
            let ds = choose|ds: Seq<u32>| #[trigger] rows_measured(f, q, self.rows(), ds) && is_top_k(ds, k as int, hits);
            assert forall|x: u64| x < n && !super::topk::has_id(hits, x as int) implies exists|d: u32|
                #[trigger] measured(f, q, self.rows()[x as int], d) && dist_key(hits.last().distance) <= dist_key(d) by {
                assert(super::topk::precedes(hits[k - 1], super::topk::hit_at(ds, x as int)));
                assert(measured(f, q, self.rows()[x as int], ds[x as int]));
            }
        }
    }

    /// Create an empty HNSW index.
    pub fn new(dim: usize, metric: Distance, params: HnswParams) -> (r: Self)
        ensures
            r.wf(),
            r.spec_dim() == dim,
            r.spec_metric() == metric,
            r.spec_params() == params,
            r.rows() == Seq::<Seq<T>>::empty(),
            r.spec_levels() == Seq::<u8>::empty(),
            r.links() == Seq::<Seq<Seq<u64>>>::empty(),
            r.spec_entry_point() is None,
            r.spec_max_level() == 0,
    {
        let r = HnswIndex {
            dim,
            metric,
            params,
            data: Vec::new(),
            n: 0,
            levels: Vec::new(),
            neighbors: Vec::new(),
            entry_point: None,
            max_level: 0,
        };
        assert(r.rows() =~= Seq::<Seq<T>>::empty());
        assert(r.links() =~= Seq::<Seq<Seq<u64>>>::empty());
        r
    }

    /// `list` can be list `l` of node `i` in a well-formed graph over `n`
    /// nodes with these levels, within degree bound `bound`.
    pub open spec fn list_ok(list: Seq<u64>, i: int, l: int, n: int, levels: Seq<u8>, bound: int) -> bool {
        &&& list.len() <= bound
        &&& forall|j: int| 0 <= j < list.len() ==> {
            let x = #[trigger] list[j];
            &&& x < n
            &&& levels[x as int] >= l
            &&& x != i
        }
        &&& forall|a: int, b: int| 0 <= a < b < list.len() ==> #[trigger] list[a] != #[trigger] list[b]
    }

    fn check_list(list: &Vec<u64>, i: usize, l: usize, levels: &Vec<u8>, bound: usize) -> (ok: bool)
        ensures
            ok == Self::list_ok(list@, i as int, l as int, levels@.len() as int, levels@, bound as int),
    {
        let n = levels.len();
        let len = list.len();
        if len > bound {
            return false;
        }
        let mut j: usize = 0;
        while j < len
            invariant
                j <= len,
                len == list@.len(),
                n == levels@.len(),
                forall|a: int| 0 <= a < j ==> {
                    let x = #[trigger] list@[a];
                    &&& x < n
                    &&& levels@[x as int] >= l
                    &&& x != i
                },
                forall|a: int, b: int| 0 <= a < b < j ==> #[trigger] list@[a] != #[trigger] list@[b],
            decreases len - j,
        {
            let x = list[j];
            if x >= n as u64 || (levels[x as usize] as usize) < l || x == i as u64 {
                assert(!Self::list_ok(list@, i as int, l as int, n as int, levels@, bound as int)) by {
                    assert(list@[j as int] == x);
                }
                return false;
            }
            let mut a: usize = 0;
            while a < j
                invariant
                    a <= j < len,
                    len == list@.len(),
                    x == list@[j as int],
                    forall|c: int| 0 <= c < a ==> list@[c] != x,
                decreases j - a,
            {
                if list[a] == x {
                    assert(!Self::list_ok(list@, i as int, l as int, n as int, levels@, bound as int)) by {
                        assert(list@[a as int] == list@[j as int]);
                    }
                    return false;
                }
                a = a + 1;
            }
            j = j + 1;
        }
        true
    }

    /// The parts form a well-formed index.
    pub open spec fn parts_ok(
        dim: usize,
        params: HnswParams,
        data: Seq<T>,
        n: usize,
        levels: Seq<u8>,
        neighbors: Seq<Vec<Vec<u64>>>,
        entry_point: Option<u64>,
        max_level: u8,
    ) -> bool {
        &&& data.len() == n * dim
        &&& graph_ok(n as int, levels, links_view(neighbors))
        &&& degrees_ok(params, links_view(neighbors))
        &&& entry_ok(n as int, levels, entry_point, max_level)
    }

    /// Rebuild an index from its parts, as kept by a saved copy. Returns
    /// `None` unless the parts form a well-formed index: `n` rows of `dim`
    /// elements, one level and one list per layer for each node, neighbor IDs
    /// that name other stored nodes living on the layer, no repeated neighbor,
    /// every list within its degree bound, and an entry point on the top layer
    /// exactly when the index is non-empty. A saved file whose parts are
    /// inconsistent is thus refused on load instead of giving an index that
    /// a later search or insertion could not walk.
    pub fn from_parts(
        dim: usize,
        metric: Distance,
        params: HnswParams,
        data: Vec<T>,
        n: usize,
        levels: Vec<u8>,
        neighbors: Vec<Vec<Vec<u64>>>,
        entry_point: Option<u64>,
        max_level: u8,
    ) -> (r: Option<Self>)
        ensures
            r is Some <==> Self::parts_ok(dim, params, data@, n, levels@, neighbors@, entry_point, max_level),
            r matches Some(idx) ==> {
                &&& idx.wf()
                &&& idx.spec_dim() == dim
                &&& idx.spec_metric() == metric
                &&& idx.spec_params() == params
                &&& idx.rows().len() == n
                &&& forall|i: int| 0 <= i < n ==> #[trigger] idx.rows()[i] == row_of(data@, dim as nat, i)
                &&& idx.spec_levels() == levels@
                &&& idx.links() == links_view(neighbors@)
                &&& idx.spec_entry_point() == entry_point
                &&& idx.spec_max_level() == max_level
            },
    {
        let ghost links = links_view(neighbors@);
        let len = data.len();
        let total = match n.checked_mul(dim) {
            Some(t) => t,
            None => {
                return None;
            },
        };
        if len != total || levels.len() != n || neighbors.len() != n {
            return None;
        }
        match entry_point {
            None => {
                if n != 0 || max_level != 0 {
                    return None;
                }
            },
            Some(e) => {
                if e >= n as u64 || levels[e as usize] != max_level {
                    return None;
                }
            },
        }
        let mut i: usize = 0;
        while i < n
            invariant
                i <= n,
                levels@.len() == n,
                neighbors@.len() == n,
                links == links_view(neighbors@),
                forall|x: int| 0 <= x < i ==> #[trigger] levels@[x] <= max_level,
                forall|x: int| 0 <= x < i ==> #[trigger] links[x].len() == levels@[x] + 1,
                forall|x: int, l: int| 0 <= x < i && 0 <= l < links[x].len() ==> Self::list_ok(
                    #[trigger] links[x][l],
                    x,
                    l,
                    n as int,
                    levels@,
                    degree_bound(params, l),
                ),
            decreases n - i,
        {
            if levels[i] > max_level {
                return None;
            }
            let lists = &neighbors[i];
            assert(lists@.map_values(|w: Vec<u64>| w@) == links[i as int]);
            if lists.len() != levels[i] as usize + 1 {
                return None;
            }
            let mut l: usize = 0;
            while l < lists.len()
                invariant
                    i < n,
                    l <= lists@.len(),
                    levels@.len() == n,
                    links == links_view(neighbors@),
                    lists@ == neighbors@[i as int]@,
                    links[i as int] == lists@.map_values(|w: Vec<u64>| w@),
                    forall|y: int| 0 <= y < l ==> Self::list_ok(
                        #[trigger] links[i as int][y],
                        i as int,
                        y,
                        n as int,
                        levels@,
                        degree_bound(params, y),
                    ),
                decreases lists@.len() - l,
            {
                let cap = if l == 0 { params.m_max0 } else { params.m };
                let bound = if params.m >= cap { params.m } else { cap };
                if !Self::check_list(&lists[l], i, l, &levels, bound) {
                    proof {
                        assert(lists@[l as int]@ == links[i as int][l as int]);
                        if Self::parts_ok(dim, params, data@, n, levels@, neighbors@, entry_point, max_level) {
                            assert(links[i as int][l as int].len() <= degree_bound(params, l as int));
                            assert forall|j: int| 0 <= j < links[i as int][l as int].len() implies {
                                let x = #[trigger] links[i as int][l as int][j];
                                &&& x < n
                                &&& levels@[x as int] >= l
                                &&& x != i
                            } by {}
                            assert(Self::list_ok(links[i as int][l as int], i as int, l as int, n as int, levels@, degree_bound(params, l as int)));
                        }
                    }
                    return None;
                }
                l = l + 1;
            }
            i = i + 1;
        }
        proof {
            assert forall|x: int, l: int, j: int|
                0 <= x < n && 0 <= l < links[x].len() && 0 <= j < links[x][l].len() implies {
                    let v = #[trigger] links[x][l][j];
                    &&& v < n
                    &&& levels@[v as int] >= l
                    &&& v != x
                } by {
                assert(Self::list_ok(links[x][l], x, l, n as int, levels@, degree_bound(params, l)));
            }
            assert forall|x: int, l: int, a: int, b: int|
                0 <= x < n && 0 <= l < links[x].len() && 0 <= a < b < links[x][l].len() implies #[trigger] links[x][l][a]
                    != #[trigger] links[x][l][b] by {
                assert(Self::list_ok(links[x][l], x, l, n as int, levels@, degree_bound(params, l)));
            }
            assert forall|x: int, l: int| 0 <= x < links.len() && 0 <= l < links[x].len() implies #[trigger] links[x][l].len()
                <= degree_bound(params, l) by {
                assert(Self::list_ok(links[x][l], x, l, n as int, levels@, degree_bound(params, l)));
            }
        }
        let r = HnswIndex { dim, metric, params, data, n, levels, neighbors, entry_point, max_level };
        Some(r)
    }

    /// The row buffer: the stored vectors back to back, in ID order.
    pub fn as_row_buffer(&self) -> (s: &[T])
        requires
            self.wf(),
        ensures
            s@.len() == self.rows().len() * self.spec_dim(),
            forall|i: int| 0 <= i < self.rows().len() ==> #[trigger] self.rows()[i] == row_of(s@, self.spec_dim(), i),
    {
        self.data.as_slice()
    }

    /// The top layer of every node, by ID.
    pub fn levels(&self) -> (s: &[u8])
        ensures
            s@ == self.spec_levels(),
    {
        self.levels.as_slice()
    }

    /// The neighbor lists: entry `[i][l]` lists node `i`'s neighbors on layer `l`.
    pub fn neighbor_lists(&self) -> (nb: &Vec<Vec<Vec<u64>>>)
        ensures
            links_view(nb@) == self.links(),
    {
        &self.neighbors
    }

    /// Vector view of stored point `id`.
    fn vector_of(&self, id: u64) -> (v: &[T])
        requires
            self.data@.len() == self.n * self.dim,
            id < self.n,
        ensures
            v@ == self.rows()[id as int],
    {
        let i = id as usize;
        proof {
            lemma_row_bounds(i as int, self.n as int, self.dim as int);
        }
        let total = self.data.len();
        assert((i + 1) * self.dim <= total);
        vstd::slice::slice_subrange(self.data.as_slice(), i * self.dim, (i + 1) * self.dim)
    }

    /// Greedy 1-nearest descent at a single layer, starting from `entry`.
    /// Returns the closest point to `query` reachable by greedy traversal:
    /// it moves to a strictly closer neighbor while one exists.
    fn greedy_search<F: Fn(&[T], &[T]) -> u32>(&self, query: &[T], entry: u64, layer: u8, dist: &F) -> (best:
        SearchResult)
        requires
            self.navigable(),
            total_metric(*dist),
            entry < self.n,
            self.levels@[entry as int] >= layer,
        ensures
            self.reached(*dist, query@, seq![entry], layer as int, best),
            self.local_minimum(*dist, query@, layer as int, best),
            exists|p: Seq<SearchResult>|
                descent(*dist, query@, self.rows(), self.links(), layer as int, entry, p) && p.last() == best && (p.len()
                    == 1 || crate::ieee::spec_lt(best.distance, p[0].distance)),
    {
        let ghost entries = seq![entry];
        let d0 = dist(query, self.vector_of(entry));
        let mut best = SearchResult { id: entry, distance: d0 };
        assert(entries[0] == entry);
        let ghost mut path: Seq<SearchResult> = seq![best];
        proof {
            assert(path[0] == best);
        }
        let mut improved = true;
        while improved
            invariant
                self.navigable(),
                total_metric(*dist),
                entries == seq![entry],
                self.reached(*dist, query@, entries, layer as int, best),
                !improved ==> self.local_minimum(*dist, query@, layer as int, best),
                descent(*dist, query@, self.rows(), self.links(), layer as int, entry, path),
                path.last() == best,
                path.len() == 1 || crate::ieee::spec_lt(best.distance, path[0].distance),
            decreases dist_key(best.distance) + if improved { 1int } else { 0int },
        {
            improved = false;
            let ghost start = best;
            let bi = best.id as usize;
            let li = layer as usize;
            assert(self.links()[bi as int].len() == self.levels@[bi as int] + 1);
            let nbs = &self.neighbors[bi][li];
            assert(nbs@ == self.links()[bi as int][li as int]);
            let count = nbs.len();
            let mut j: usize = 0;
            while j < count
                invariant
                    self.navigable(),
                    total_metric(*dist),
                    entries == seq![entry],
                    count == nbs@.len(),
                    bi < self.n,
                    li == layer,
                    li < self.links()[bi as int].len(),
                    nbs@ == self.links()[bi as int][li as int],
                    j <= count,
                    self.reached(*dist, query@, entries, layer as int, best),
                    improved ==> dist_key(best.distance) < dist_key(start.distance),
                    improved ==> self.links()[bi as int][li as int].contains(best.id) && crate::ieee::spec_lt(
                        best.distance,
                        start.distance,
                    ),
                    !improved ==> best == start,
                    !improved ==> forall|a: int| 0 <= a < j ==> no_closer(*dist, query@, self.rows()[#[trigger] nbs@[a] as int], best.distance),
                decreases count - j,
            {
                let nid = nbs[j];
                assert(nid == self.links()[bi as int][li as int][j as int]);
                let row = self.vector_of(nid);
                let d = dist(query, row);
                assert(measured(*dist, query@, self.rows()[nid as int], d));
                if lt(d, best.distance) {
                    proof {
                        crate::ieee::lemma_lt_strict_order(d, best.distance, start.distance);
                    }
                    best = SearchResult { id: nid, distance: d };
                    improved = true;
                    assert(linked_at(self.links(), layer as int, nid));
                } else {
                    assert(no_closer(*dist, query@, self.rows()[nid as int], best.distance));
                }
                j = j + 1;
            }
            proof {
                if improved {
                    let p0 = path;
                    path = p0.push(best);
                    assert(path[path.len() - 2] == start);
                    assert forall|i: int| 0 <= i < path.len() implies measured(
                        *dist,
                        query@,
                        self.rows()[(#[trigger] path[i]).id as int],
                        path[i].distance,
                    ) by {
                        if i < p0.len() {
                            assert(path[i] == p0[i]);
                        }
                    }
                    assert forall|i: int| 0 < i < path.len() implies self.links()[path[i - 1].id as int][layer as int].contains(
                        (#[trigger] path[i]).id,
                    ) && crate::ieee::spec_lt(path[i].distance, path[i - 1].distance) by {
                        if i < p0.len() {
                            assert(path[i] == p0[i]);
                            assert(path[i - 1] == p0[i - 1]);
                        }
                    }
                    assert(path[0] == p0[0]);
                    if p0.len() > 1 {
                        crate::ieee::lemma_lt_strict_order(best.distance, start.distance, p0[0].distance);
                    }
                }
                if !improved {
                    assert forall|j: int| 0 <= j < self.links()[best.id as int][layer as int].len() implies no_closer(
                        *dist,
                        query@,
                        self.rows()[#[trigger] self.links()[best.id as int][layer as int][j] as int],
                        best.distance,
                    ) by {
                        assert(nbs@[j] == self.links()[bi as int][li as int][j]);
                    }
                }
            }
        }
        best
    }

    /// Position of a candidate with the smallest distance.
    fn closest_position(cands: &Vec<SearchResult>) -> (p: usize)
        requires
            cands@.len() > 0,
        ensures
            p < cands@.len(),
            forall|j: int| 0 <= j < cands@.len() ==> dist_key(cands@[p as int].distance) <= dist_key(
                #[trigger] cands@[j].distance,
            ),
    {
        let mut p: usize = 0;
        let mut j: usize = 1;
        while j < cands.len()
            invariant
                0 < j <= cands@.len(),
                p < j,
                forall|i: int| 0 <= i < j ==> dist_key(cands@[p as int].distance) <= dist_key(
                    #[trigger] cands@[i].distance,
                ),
            decreases cands@.len() - j,
        {
            if crate::ieee::rank(cands[j].distance) < crate::ieee::rank(cands[p].distance) {
                p = j;
            }
            j = j + 1;
        }
        p
    }

    /// The bookkeeping of a beam search on `layer` from `entries`:
    /// `visited` holds the nodes whose distance was measured, `dmap` that
    /// distance; every candidate and result is a reached, visited node
    /// carrying its measured distance; the results are sorted and distinct;
    /// every neighbor of an expanded node was visited; and, when the oracle
    /// never returns NaN, no visited node is closer than the first result,
    /// and every result is expanded, still a candidate, or `current`.
    closed spec fn beam_ok<F: Fn(&[T], &[T]) -> u32>(
        &self,
        f: F,
        q: Seq<T>,
        entries: Seq<u64>,
        layer: int,
        visited: Set<u64>,
        dmap: Map<u64, u32>,
        expanded: Set<u64>,
        cands: Seq<SearchResult>,
        results: Seq<SearchResult>,
        current: Option<u64>,
    ) -> bool {
        &&& visited.finite()
        &&& forall|x: u64| #[trigger] visited.contains(x) ==> x < self.n
        &&& visited.len() <= self.n
        &&& dmap.dom() == visited
        &&& forall|x: u64| #[trigger] visited.contains(x) ==> measured(f, q, self.rows()[x as int], dmap[x])
        &&& forall|j: int|
            0 <= j < cands.len() ==> self.reached(f, q, entries, layer, #[trigger] cands[j]) && visited.contains(cands[j].id)
                && dmap[cands[j].id] == cands[j].distance
        &&& sorted_by_distance(results)
        &&& distinct_ids(results)
        &&& results.len() == 0 ==> visited == Set::<u64>::empty()
        &&& forall|j: int|
            0 <= j < results.len() ==> self.reached(f, q, entries, layer, #[trigger] results[j]) && visited.contains(
                results[j].id,
            ) && dmap[results[j].id] == results[j].distance
        &&& forall|e: u64| #[trigger] expanded.contains(e) ==> visited.contains(e) && self.levels@[e as int] >= layer
        &&& forall|e: u64, j: int|
            expanded.contains(e) && 0 <= j < self.links()[e as int][layer].len() ==> visited.contains(
                #[trigger] self.links()[e as int][layer][j],
            )
        &&& never_nan(f) ==> forall|x: u64| #[trigger] visited.contains(x) ==> !crate::ieee::spec_is_nan(dmap[x])
        &&& never_nan(f) && results.len() > 0 ==> forall|x: u64|
            #[trigger] visited.contains(x) ==> dist_key(dmap[x]) >= dist_key(results[0].distance)
        &&& never_nan(f) ==> forall|j: int|
            0 <= j < results.len() ==> expanded.contains(#[trigger] results[j].id) || super::topk::has_id(
                cands,
                results[j].id as int,
            ) || current == Some(results[j].id)
    }

    /// More bookkeeping of a beam search of width `width`: every visited node
    /// is reachable from the entries on the layer; until `width` results are
    /// kept, every visited node is a result and is expanded, a candidate or
    /// `current`; and, when the oracle never returns NaN, no visited node
    /// outside the results ranks before the last result.
    #[verifier::opaque]
    closed spec fn beam_more<F: Fn(&[T], &[T]) -> u32>(
        &self,
        f: F,
        entries: Seq<u64>,
        layer: int,
        width: int,
        visited: Set<u64>,
        dmap: Map<u64, u32>,
        expanded: Set<u64>,
        cands: Seq<SearchResult>,
        results: Seq<SearchResult>,
        current: Option<u64>,
    ) -> bool {
        &&& width >= 1
        &&& forall|x: u64| #[trigger] visited.contains(x) ==> reachable(layer_lists(self.links(), layer), entries, x)
        &&& results.len() < width ==> forall|x: u64| #[trigger] visited.contains(x) ==> super::topk::has_id(results, x as int)
        &&& results.len() < width ==> forall|x: u64|
            #[trigger] visited.contains(x) ==> expanded.contains(x) || super::topk::has_id(cands, x as int) || current == Some(x)
        &&& never_nan(f) ==> forall|x: u64|
            #[trigger] visited.contains(x) && !super::topk::has_id(results, x as int) ==> dist_key(dmap[x]) >= dist_key(
                results.last().distance,
            )
    }

    /// The front of a beam search: when the oracle never returns NaN, every
    /// visited node that ranks before the last result is expanded, a
    /// candidate, or `current`.
    #[verifier::opaque]
    closed spec fn beam_front<F: Fn(&[T], &[T]) -> u32>(
        &self,
        f: F,
        visited: Set<u64>,
        dmap: Map<u64, u32>,
        expanded: Set<u64>,
        cands: Seq<SearchResult>,
        results: Seq<SearchResult>,
        current: Option<u64>,
    ) -> bool {
        never_nan(f) && results.len() > 0 ==> forall|x: u64|
            #[trigger] visited.contains(x) && dist_key(dmap[x]) < dist_key(results.last().distance) ==> expanded.contains(x)
                || super::topk::has_id(cands, x as int) || current == Some(x)
    }

    /// Every candidate ranks after the last result.
    #[verifier::opaque]
    closed spec fn beyond_last(cands: Seq<SearchResult>, results: Seq<SearchResult>) -> bool {
        results.len() > 0 ==> forall|j: int|
            0 <= j < cands.len() ==> dist_key(results.last().distance) < dist_key(#[trigger] cands[j].distance)
    }

    /// The width of a beam search asked for `ef` results: `ef`, and at least
    /// one.
    pub open spec fn beam_width(ef: usize) -> int {
        if ef == 0 {
            1
        } else {
            ef as int
        }
    }

    /// The width of the bottom-layer beam search of a query for `k`
    /// neighbors: `max(ef_search, k)`, and at least one.
    pub open spec fn search_width(p: HnswParams, k: usize) -> int {
        Self::beam_width(if p.ef_search < k { k } else { p.ef_search })
    }

    /// Beam search at a single layer, the workhorse of both construction and
    /// query. Returns, sorted by distance, up to `ef` (at least one) nearest
    /// candidates to `query` found from `entry_points`: what a beam search of
    /// that width returns on the layer ([`beam_outcome`]). The search stops
    /// only once no open candidate ranks before the last result, so, when the
    /// oracle never returns NaN, every measured node that ranks before the
    /// last result has had all its neighbors measured, and the first result
    /// is a local minimum of the layer.
    #[verifier::spinoff_prover]
    #[verifier::rlimit(100)]
    fn search_layer<F: Fn(&[T], &[T]) -> u32>(
        &self,
        query: &[T],
        entry_points: &[u64],
        ef: usize,
        layer: u8,
        dist: &F,
    ) -> (out: Vec<SearchResult>)
        requires
            self.navigable(),
            total_metric(*dist),
            forall|e: int|
                0 <= e < entry_points@.len() ==> #[trigger] entry_points@[e] < self.n && self.levels@[entry_points@[e] as int]
                    >= layer,
        ensures
            sorted_by_distance(out@),
            distinct_ids(out@),
            forall|j: int| 0 <= j < out@.len() ==> self.reached(*dist, query@, entry_points@, layer as int, #[trigger] out@[j]),
            out@.len() <= Self::beam_width(ef),
            entry_points@.len() > 0 ==> out@.len() > 0,
            beam_outcome(
                *dist,
                query@,
                self.rows(),
                layer_lists(self.links(), layer as int),
                entry_points@,
                Self::beam_width(ef),
                out@,
            ),
            never_nan(*dist) && out@.len() > 0 ==> self.local_minimum(*dist, query@, layer as int, out@[0]),
    {
        let width: usize = if ef == 0 { 1 } else { ef };
        let cap = if ef <= usize::MAX / 4 { ef * 4 } else { ef };
        let mut visited: HashSet<u64> = HashSet::with_capacity(cap);
        let mut candidates: Vec<SearchResult> = Vec::new();
        let mut results: Vec<SearchResult> = Vec::new();
        let ghost entries = entry_points@;
        let ghost n = self.n as nat;
        let ghost mut dmap: Map<u64, u32> = Map::empty();
        let ghost mut expanded: Set<u64> = Set::empty();
        let ghost f = *dist;
        let ghost q = query@;
        let ghost l = layer as int;
        let ghost lay = layer_lists(self.links(), layer as int);
        let ghost w = width as int;
        let ne = entry_points.len();
        let mut e: usize = 0;
        proof {
            assert(dmap.dom() =~= visited@);
            assert(self.beam_more(f, entries, l, w, visited@, dmap, expanded, candidates@, results@, None)) by {
                reveal(HnswIndex::beam_more);
            }
            assert(results@ =~= Seq::<SearchResult>::empty());
            self.lemma_front_empty(f, expanded, candidates@);
        }
        while e < ne
            invariant
                self.navigable(),
                total_metric(*dist),
                f == *dist,
                q == query@,
                l == layer,
                n == self.n,
                entries == entry_points@,
                lay == layer_lists(self.links(), layer as int),
                w == width,
                w == Self::beam_width(ef),
                ne == entries.len(),
                e <= ne,
                forall|x: int| 0 <= x < ne ==> #[trigger] entries[x] < self.n && self.levels@[entries[x] as int] >= layer,
                self.beam_ok(f, q, entries, l, visited@, dmap, expanded, candidates@, results@, None),
                self.beam_more(f, entries, l, w, visited@, dmap, expanded, candidates@, results@, None),
                self.beam_front(f, visited@, dmap, expanded, candidates@, results@, None),
                forall|x: u64| #[trigger] visited@.contains(x) ==> super::topk::has_id(results@, x as int),
                forall|x: int| 0 <= x < e ==> visited@.contains(#[trigger] entries[x]),
                results@.len() <= e,
                e > 0 ==> results@.len() > 0,
                e == 0 ==> visited@ == Set::<u64>::empty(),
            decreases ne - e,
        {
            let id = entry_points[e];
            assert(entries[e as int] == id);
            let ghost v0 = visited@;
            if visited.insert(id) {
                let d = dist(query, self.vector_of(id));
                let c = SearchResult { id, distance: d };
                assert(entries.contains(id));
                let ghost cands0 = candidates@;
                candidates.push(c);
                let ghost before = results@;
                let p = insert_by_distance(&mut results, c);
                proof {
                    let d0 = dmap;
                    dmap = dmap.insert(id, d);
                    lemma_entry_reachable(lay, entries, e as int);
                    self.lemma_front_pushed(
                        f, q, entries, l, w, expanded, None, v0, d0, cands0, before, c, p as int, visited@, dmap,
                        candidates@, results@,
                    );
                    self.lemma_more_pushed(
                        f, q, entries, l, w, expanded, None, v0, d0, cands0, before, c, p as int, visited@, dmap,
                        candidates@, results@,
                    );
                    self.lemma_beam_visit_pushed(
                        f, q, entries, l, expanded, None, v0, d0, cands0, before, c, p as int, visited@, dmap,
                        candidates@, results@,
                    );
                    before.insert_ensures(p as int, c);
                    assert forall|x: u64| #[trigger] visited@.contains(x) implies super::topk::has_id(results@, x as int) by {
                        if x == id {
                            assert(results@[p as int] == c);
                        } else {
                            assert(super::topk::has_id(before, x as int));
                            let j = choose|j: int| 0 <= j < before.len() && before[j].id == x as int;
                            if j < p {
                                assert(results@[j] == before[j]);
                            } else {
                                assert(results@[j + 1] == before[j]);
                            }
                        }
                    }
                }
            } else {
                proof {
                    if e == 0 {
                        assert(false);
                    }
                    assert(visited@ =~= v0);
                }
            }
            e = e + 1;
        }
        let mut done = false;
        while !done && candidates.len() > 0
            invariant
                self.navigable(),
                total_metric(*dist),
                f == *dist,
                q == query@,
                l == layer,
                n == self.n,
                entries == entry_points@,
                lay == layer_lists(self.links(), layer as int),
                w == width,
                w == Self::beam_width(ef),
                self.beam_ok(f, q, entries, l, visited@, dmap, expanded, candidates@, results@, None),
                self.beam_more(f, entries, l, w, visited@, dmap, expanded, candidates@, results@, None),
                self.beam_front(f, visited@, dmap, expanded, candidates@, results@, None),
                forall|x: int| 0 <= x < entries.len() ==> visited@.contains(#[trigger] entries[x]),
                done ==> results@.len() >= w,
                done ==> Self::beyond_last(candidates@, results@),
                done ==> (never_nan(f) && results@.len() > 0 ==> expanded.contains(results@[0].id)),
                entries.len() > 0 ==> results@.len() > 0,
            decreases n - visited@.len() + candidates@.len(),
        {
            let mi = Self::closest_position(&candidates);
            let ghost cands_before = candidates@;
            let current = candidates.swap_remove(mi);
            let rl = results.len();
            if rl > 0 && lt(results[rl - 1].distance, current.distance) && rl >= width {
                done = true;
                proof {
                    self.lemma_beam_stop(f, q, entries, l, visited@, dmap, expanded, cands_before, mi as int, candidates@, results@);
                    self.lemma_more_stop(f, entries, l, w, visited@, dmap, expanded, cands_before, candidates@, results@);
                    self.lemma_front_stop(f, q, entries, l, visited@, dmap, expanded, cands_before, mi as int, candidates@, results@);
                }
            } else {
                proof {
                    self.lemma_beam_pop(f, q, entries, l, visited@, dmap, expanded, cands_before, mi as int, candidates@, results@);
                    self.lemma_more_pop(f, entries, l, w, visited@, dmap, expanded, cands_before, mi as int, candidates@, results@);
                    self.lemma_front_pop(f, visited@, dmap, expanded, cands_before, mi as int, candidates@, results@);
                    assert(reachable(lay, entries, current.id));
                }
                let ghost d_in = dmap;
                let d_out = self.expand_node(
                    query, current.id, layer, width, dist, &mut visited, &mut candidates, &mut results, Ghost(entries),
                    Ghost(expanded), Ghost(d_in),
                );
                proof {
                    dmap = d_out@;
                }
                proof {
                    let new_expanded = expanded.insert(current.id);
                    self.lemma_beam_expanded(
                        f, q, entries, l, visited@, dmap, expanded, candidates@, results@, current.id,
                    );
                    self.lemma_more_expanded(f, entries, l, w, visited@, dmap, expanded, candidates@, results@, current.id);
                    self.lemma_front_expanded(f, visited@, dmap, expanded, candidates@, results@, current.id);
                    expanded = new_expanded;
                }
            }
        }
        proof {
            if never_nan(f) && results@.len() > 0 {
                self.lemma_beam_first_is_local_minimum(f, q, entries, l, visited@, dmap, expanded, candidates@, results@);
            }
        }
        let ghost pre = results@;
        while results.len() > width
            invariant
                w == width,
                w >= 1,
                pre.len() > w ==> results@.len() >= w,
                pre.len() <= w ==> results@.len() == pre.len(),
                results@ == pre.take(results@.len() as int),
                results@.len() <= pre.len(),
            decreases results@.len(),
        {
            results.pop();
        }
        proof {
            let cut = if pre.len() < w { pre.len() as int } else { w };
            assert(results@ =~= pre.take(cut));
            self.lemma_beam_result(f, q, entries, l, w, visited@, dmap, expanded, candidates@, pre, results@);
            assert forall|j: int| 0 <= j < results@.len() implies self.reached(*dist, query@, entry_points@, layer as int, #[trigger] results@[j]) by {
                assert(results@[j] == pre[j]);
            }
            if results@.len() > 0 {
                assert(results@[0] == pre[0]);
            }
        }
        results
    }

    /// Expands node `cur` of a beam search on `layer`: each neighbor not yet
    /// visited is measured, and kept as a candidate and a result when there
    /// is room among the `width` results or it beats the last of them; the
    /// results are cut back to `width`.
    #[verifier::spinoff_prover]
    #[verifier::rlimit(100)]
    fn expand_node<F: Fn(&[T], &[T]) -> u32>(
        &self,
        query: &[T],
        cur: u64,
        layer: u8,
        width: usize,
        dist: &F,
        visited: &mut HashSet<u64>,
        candidates: &mut Vec<SearchResult>,
        results: &mut Vec<SearchResult>,
        Ghost(entries): Ghost<Seq<u64>>,
        Ghost(expanded): Ghost<Set<u64>>,
        Ghost(dmap_in): Ghost<Map<u64, u32>>,
    ) -> (dmap_out: Ghost<Map<u64, u32>>)
        requires
            self.navigable(),
            total_metric(*dist),
            width >= 1,
            cur < self.n,
            self.levels@[cur as int] >= layer,
            old(visited)@.contains(cur),
            reachable(layer_lists(self.links(), layer as int), entries, cur),
            old(results)@.len() > 0,
            forall|x: int| 0 <= x < entries.len() ==> old(visited)@.contains(#[trigger] entries[x]),
            self.beam_ok(*dist, query@, entries, layer as int, old(visited)@, dmap_in, expanded, old(candidates)@, old(results)@, Some(cur)),
            self.beam_more(
                *dist, entries, layer as int, width as int, old(visited)@, dmap_in, expanded, old(candidates)@, old(results)@, Some(cur),
            ),
            self.beam_front(*dist, old(visited)@, dmap_in, expanded, old(candidates)@, old(results)@, Some(cur)),
        ensures
            forall|a: int|
                0 <= a < self.links()[cur as int][layer as int].len() ==> final(visited)@.contains(
                    #[trigger] self.links()[cur as int][layer as int][a],
                ),
            forall|x: int| 0 <= x < entries.len() ==> final(visited)@.contains(#[trigger] entries[x]),
            final(visited)@.contains(cur),
            self.beam_ok(
                *dist, query@, entries, layer as int, final(visited)@, dmap_out@, expanded, final(candidates)@, final(results)@, Some(cur),
            ),
            self.beam_more(
                *dist, entries, layer as int, width as int, final(visited)@, dmap_out@, expanded, final(candidates)@, final(results)@,
                Some(cur),
            ),
            self.beam_front(*dist, final(visited)@, dmap_out@, expanded, final(candidates)@, final(results)@, Some(cur)),
            old(visited)@.len() <= final(visited)@.len(),
            final(visited)@.len() <= self.n,
            final(candidates)@.len() - old(candidates)@.len() <= final(visited)@.len() - old(visited)@.len(),
            final(results)@.len() > 0,
    {
        let ghost mut dmap = dmap_in;
        let ghost f = *dist;
        let ghost q = query@;
        let ghost l = layer as int;
        let ghost n = self.n as nat;
        let ghost lay = layer_lists(self.links(), layer as int);
        let ghost w = width as int;
        proof {
            lemma_bounded_set_len(visited@, n);
        }
        let ci = cur as usize;
        let li = layer as usize;
        assert(self.links()[ci as int].len() == self.levels@[ci as int] + 1);
        let nbs = &self.neighbors[ci][li];
        assert(nbs@ == self.links()[ci as int][li as int]);
        assert(lay[ci as int] == nbs@);
        let count = nbs.len();
        let ghost v0 = visited@.len();
        let ghost c0 = candidates@.len();
        let mut j: usize = 0;
        while j < count
            invariant
                self.navigable(),
                total_metric(*dist),
                f == *dist,
                q == query@,
                l == layer,
                n == self.n,
                lay == layer_lists(self.links(), layer as int),
                w == width,
                w >= 1,
                count == nbs@.len(),
                ci == cur,
                ci < self.n,
                li == layer,
                li < self.links()[ci as int].len(),
                self.levels@[ci as int] >= layer,
                visited@.contains(cur),
                reachable(lay, entries, cur),
                results@.len() > 0,
                nbs@ == self.links()[ci as int][li as int],
                lay[ci as int] == nbs@,
                j <= count,
                forall|a: int| 0 <= a < j ==> visited@.contains(#[trigger] nbs@[a]),
                forall|x: int| 0 <= x < entries.len() ==> visited@.contains(#[trigger] entries[x]),
                self.beam_ok(f, q, entries, l, visited@, dmap, expanded, candidates@, results@, Some(cur)),
                self.beam_more(f, entries, l, w, visited@, dmap, expanded, candidates@, results@, Some(cur)),
                self.beam_front(f, visited@, dmap, expanded, candidates@, results@, Some(cur)),
                v0 <= visited@.len(),
                candidates@.len() - c0 <= visited@.len() - v0,
                entries.len() > 0 ==> results@.len() > 0,
            decreases count - j,
        {
            let nid = nbs[j];
            assert(nid == self.links()[ci as int][li as int][j as int]);
            let ghost vis0 = visited@;
            if visited.insert(nid) {
                proof {
                    lemma_bounded_set_len(visited@, n);
                    assert(lay[ci as int][j as int] == nid);
                    lemma_reach_step(lay, entries, cur, nid);
                }
                let d = dist(query, self.vector_of(nid));
                let cand = SearchResult { id: nid, distance: d };
                assert(linked_at(self.links(), layer as int, nid));
                let rl2 = results.len();
                let push_it = rl2 == 0 || lt(d, results[rl2 - 1].distance) || rl2 < width;
                if push_it {
                    let ghost cands0 = candidates@;
                    candidates.push(cand);
                    let ghost before = results@;
                    let p = insert_by_distance(results, cand);
                    proof {
                        let d0 = dmap;
                        dmap = dmap.insert(nid, d);
                        self.lemma_front_pushed(
                            f, q, entries, l, w, expanded, Some(cur), vis0, d0, cands0, before, cand, p as int,
                            visited@, dmap, candidates@, results@,
                        );
                        self.lemma_more_pushed(
                            f, q, entries, l, w, expanded, Some(cur), vis0, d0, cands0, before, cand, p as int,
                            visited@, dmap, candidates@, results@,
                        );
                        self.lemma_beam_visit_pushed(
                            f, q, entries, l, expanded, Some(cur), vis0, d0, cands0, before, cand, p as int,
                            visited@, dmap, candidates@, results@,
                        );
                    }
                    if results.len() > width {
                        let ghost full = results@;
                        results.pop();
                        proof {
                            self.lemma_front_drop_last(
                                f, q, entries, l, visited@, dmap, expanded, candidates@, Some(cur), full, results@,
                            );
                            self.lemma_more_drop_last(
                                f, q, entries, l, w, visited@, dmap, expanded, candidates@, Some(cur), full, results@,
                            );
                            self.lemma_beam_drop_last(
                                f, q, entries, l, visited@, dmap, expanded, candidates@, Some(cur), full, results@,
                            );
                        }
                    }
                } else {
                    proof {
                        let d0 = dmap;
                        dmap = dmap.insert(nid, d);
                        self.lemma_front_skipped(
                            f, q, entries, l, expanded, Some(cur), candidates@, results@, vis0, d0, cand,
                            visited@, dmap,
                        );
                        self.lemma_more_skipped(
                            f, q, entries, l, w, expanded, Some(cur), candidates@, results@, vis0, d0, cand,
                            visited@, dmap,
                        );
                        self.lemma_beam_visit_skipped(
                            f, q, entries, l, expanded, Some(cur), candidates@, results@, vis0, d0, cand,
                            visited@, dmap,
                        );
                    }
                }
            } else {
                proof {
                    assert(visited@ =~= vis0);
                }
            }
            j = j + 1;
        }
        proof {
            lemma_bounded_set_len(visited@, n);
        }
        Ghost(dmap)
    }

    /// The IDs of the first `m` candidates.
    fn select_neighbors_simple(candidates: &Vec<SearchResult>, m: usize) -> (ids: Vec<u64>)
        ensures
            ids@.len() == if candidates@.len() < m { candidates@.len() } else { m as nat },
            forall|j: int| 0 <= j < ids@.len() ==> #[trigger] ids@[j] == candidates@[j].id,
            ids@ == first_ids(candidates@, m as int),
    {
        let take = if candidates.len() < m { candidates.len() } else { m };
        let mut ids: Vec<u64> = Vec::with_capacity(take);
        let mut j: usize = 0;
        while j < take
            invariant
                take <= candidates@.len(),
                j <= take,
                ids@.len() == j,
                forall|i: int| 0 <= i < j ==> #[trigger] ids@[i] == candidates@[i].id,
            decreases take - j,
        {
            ids.push(candidates[j].id);
            j = j + 1;
        }
        assert(ids@ =~= first_ids(candidates@, m as int));
        ids
    }

    /// Replacing list `l` of node `i` changes the link view at that one place.
    proof fn lemma_links_update(
        nb_old: Seq<Vec<Vec<u64>>>,
        nb_new: Seq<Vec<Vec<u64>>>,
        i: int,
        l: int,
        w: Seq<u64>,
    )
        requires
            0 <= i < nb_old.len(),
            0 <= l < nb_old[i]@.len(),
            nb_new.len() == nb_old.len(),
            forall|x: int| 0 <= x < nb_old.len() && x != i ==> nb_new[x] == nb_old[x],
            nb_new[i]@.len() == nb_old[i]@.len(),
            forall|y: int| 0 <= y < nb_old[i]@.len() && y != l ==> nb_new[i]@[y] == nb_old[i]@[y],
            nb_new[i]@[l]@ == w,
        ensures
            links_view(nb_new) == links_view(nb_old).update(i, links_view(nb_old)[i].update(l, w)),
    {
        let a = links_view(nb_new);
        let b = links_view(nb_old).update(i, links_view(nb_old)[i].update(l, w));
        assert forall|x: int| 0 <= x < a.len() implies a[x] == b[x] by {
            if x == i {
                assert(a[x] =~= b[x]);
            }
        }
        assert(a =~= b);
    }

    /// Prune list `layer` of `node` down to at most `max_links` by keeping
    /// only the neighbors closest to `node` (a stable sort by distance,
    /// truncated). Lists that are short enough are left alone.
    fn prune_neighbors<F: Fn(&[T], &[T]) -> u32>(&mut self, node: u64, layer: u8, max_links: usize, dist: &F)
        requires
            old(self).navigable(),
            total_metric(*dist),
            node < old(self).n,
            layer <= old(self).levels@[node as int],
        ensures
            final(self).navigable(),
            final(self).n == old(self).n,
            final(self).dim == old(self).dim,
            final(self).metric == old(self).metric,
            final(self).params == old(self).params,
            final(self).data == old(self).data,
            final(self).levels == old(self).levels,
            final(self).entry_point == old(self).entry_point,
            final(self).max_level == old(self).max_level,
            final(self).links() == old(self).links().update(
                node as int,
                old(self).links()[node as int].update(layer as int, final(self).links()[node as int][layer as int]),
            ),
            old(self).links()[node as int][layer as int].len() <= max_links ==> final(self).links() == old(self).links(),
            old(self).links()[node as int][layer as int].len() > max_links ==> final(self).links()[node as int][layer as int].len()
                == max_links,
            old(self).links()[node as int][layer as int].len() > max_links ==> nearest_first(
                *dist,
                old(self).rows()[node as int],
                old(self).rows(),
                final(self).links()[node as int][layer as int],
            ),
            forall|x: u64|
                final(self).links()[node as int][layer as int].contains(x) ==> old(self).links()[node as int][layer as int].contains(x),
            forall|a: int, r: int|
                0 <= a < final(self).links()[node as int][layer as int].len() && 0 <= r < old(self).links()[node as int][layer as int].len()
                    && !final(self).links()[node as int][layer as int].contains(old(self).links()[node as int][layer as int][r])
                    ==> no_farther(
                    *dist,
                    old(self).rows()[node as int],
                    old(self).rows()[#[trigger] final(self).links()[node as int][layer as int][a] as int],
                    old(self).rows()[#[trigger] old(self).links()[node as int][layer as int][r] as int],
                ),
    {
        let ni = node as usize;
        let li = layer as usize;
        let ghost old_links = self.links();
        assert(old_links[ni as int].len() == self.levels@[ni as int] + 1);
        let len = self.neighbors[ni][li].len();
        assert(self.neighbors@[ni as int]@[li as int]@ == old_links[ni as int][li as int]);
        if len <= max_links {
            proof {
                assert(old_links[ni as int].update(li as int, old_links[ni as int][li as int]) =~= old_links[ni as int]);
                assert(old_links.update(ni as int, old_links[ni as int]) =~= old_links);
                let w = old_links[ni as int][li as int];
                assert forall|r: int| 0 <= r < w.len() implies w.contains(#[trigger] w[r]) by {}
            }
            return;
        }
        let ghost rows0 = self.rows();
        let node_vec = self.vector_of(node);
        let mut ds: Vec<u32> = Vec::with_capacity(len);
        let mut j: usize = 0;
        while j < len
            invariant
                self.navigable(),
                total_metric(*dist),
                old_links == self.links(),
                rows0 == self.rows(),
                node_vec@ == rows0[ni as int],
                ni < self.n,
                li < old_links[ni as int].len(),
                len == old_links[ni as int][li as int].len(),
                j <= len,
                ds@.len() == j,
                forall|i: int| 0 <= i < j ==> measured(
                    *dist,
                    rows0[ni as int],
                    rows0[old_links[ni as int][li as int][i] as int],
                    #[trigger] ds@[i],
                ),
            decreases len - j,
        {
            let nid = self.neighbors[ni][li][j];
            assert(nid == old_links[ni as int][li as int][j as int]);
            let nv = self.vector_of(nid);
            let d = dist(node_vec, nv);
            assert(measured(*dist, rows0[ni as int], rows0[nid as int], d));
            ds.push(d);
            j = j + 1;
        }
        let top = select_top_k(ds.as_slice(), max_links);
        proof {
            lemma_top_k_sorted_distinct(ds@, max_links as int, top@);
        }
        let mut kept: Vec<u64> = Vec::with_capacity(max_links);
        let mut t: usize = 0;
        while t < max_links
            invariant
                self.navigable(),
                old_links == self.links(),
                ni < self.n,
                li < old_links[ni as int].len(),
                len == old_links[ni as int][li as int].len(),
                max_links < len,
                ds@.len() == len,
                is_top_k(ds@, max_links as int, top@),
                distinct_ids(top@),
                t <= max_links,
                kept@.len() == t,
                forall|a: int| 0 <= a < t ==> #[trigger] kept@[a] == old_links[ni as int][li as int][top@[a].id as int],
            decreases max_links - t,
        {
            let pos = top[t].id as usize;
            assert(top@[t as int].id < len);
            kept.push(self.neighbors[ni][li][pos]);
            t = t + 1;
        }
        let ghost nb_old = self.neighbors@;
        let ghost old_self = *self;
        self.neighbors[ni][li] = kept;
        proof {
            Self::lemma_links_update(nb_old, self.neighbors@, ni as int, li as int, kept@);
            let w = old_links[ni as int][li as int];
            assert forall|x: u64| kept@.contains(x) implies w.contains(x) by {
                let a = choose|a: int| 0 <= a < kept@.len() && kept@[a] == x;
                assert(w[top@[a].id as int] == x);
            }
            assert forall|a: int, b: int| 0 <= a < b < kept@.len() implies #[trigger] kept@[a] != #[trigger] kept@[b] by {
                assert(top@[a].id != top@[b].id);
                assert(w[top@[a].id as int] != w[top@[b].id as int]) by {
                    if top@[a].id < top@[b].id {
                        assert(w[top@[a].id as int] != w[top@[b].id as int]);
                    } else {
                        assert(w[top@[b].id as int] != w[top@[a].id as int]);
                    }
                }
            }
            assert forall|x: u64| #[trigger] kept@.contains(x) implies x < self.n && self.levels@[x as int] >= li && x != ni by {
                assert(w.contains(x));
                let k = choose|k: int| 0 <= k < w.len() && w[k] == x;
                assert(old_links[ni as int][li as int][k] == x);
            }
            self.lemma_replace_list_keeps_graph(old_links, ni as int, li as int, kept@);
            assert forall|a: int, r: int|
                0 <= a < kept@.len() && 0 <= r < w.len() && !kept@.contains(w[r]) implies no_farther(
                *dist,
                rows0[ni as int],
                rows0[#[trigger] kept@[a] as int],
                rows0[#[trigger] w[r] as int],
            ) by {
                let ia = top@[a].id as int;
                assert(kept@[a] == w[ia]);
                if super::topk::has_id(top@, r) {
                    let b = choose|b: int| 0 <= b < top@.len() && top@[b].id == r;
                    assert(kept@[b] == w[r]);
                    assert(false);
                }
                assert(super::topk::precedes(top@[max_links - 1], super::topk::hit_at(ds@, r)));
                if a < max_links - 1 {
                    assert(super::topk::precedes(top@[a], top@[max_links - 1]));
                }
                assert(measured(*dist, rows0[ni as int], rows0[w[ia] as int], ds@[ia]));
                assert(measured(*dist, rows0[ni as int], rows0[w[r] as int], ds@[r]));
            }
            let kd = Seq::new(kept@.len(), |a: int| ds@[top@[a].id as int]);
            assert forall|a: int| 0 <= a < kept@.len() implies measured(*dist, rows0[ni as int], rows0[kept@[a] as int], #[trigger] kd[a]) by {
                assert(kept@[a] == w[top@[a].id as int]);
            }
            assert forall|a: int, b: int| 0 <= a < b < kept@.len() implies dist_key(#[trigger] kd[a]) <= dist_key(#[trigger] kd[b]) by {
                assert(super::topk::precedes(top@[a], top@[b]));
            }
            assert(kd.len() == kept@.len());
            assert(nearest_first(*dist, rows0[ni as int], rows0, kept@));
        }
    }

    /// Replacing a list by distinct valid neighbors keeps the graph well
    /// formed.
    proof fn lemma_replace_list_keeps_graph(&self, old_links: Seq<Seq<Seq<u64>>>, i: int, l: int, w: Seq<u64>)
        requires
            graph_ok(self.n as int, self.levels@, old_links),
            0 <= i < self.n,
            0 <= l < old_links[i].len(),
            self.links() == old_links.update(i, old_links[i].update(l, w)),
            forall|x: u64| #[trigger] w.contains(x) ==> x < self.n && self.levels@[x as int] >= l && x != i,
            forall|a: int, b: int| 0 <= a < b < w.len() ==> #[trigger] w[a] != #[trigger] w[b],
        ensures
            graph_ok(self.n as int, self.levels@, self.links()),
    {
        let links = self.links();
        let n = self.n as int;
        assert forall|x: int, y: int, j: int|
            0 <= x < n && 0 <= y < links[x].len() && 0 <= j < links[x][y].len() implies {
                let v = #[trigger] links[x][y][j];
                &&& v < n
                &&& self.levels@[v as int] >= y
                &&& v != x
            } by {
            if x == i && y == l {
                assert(w.contains(links[x][y][j]));
            } else {
                assert(links[x][y] == old_links[x][y]);
            }
        }
        assert forall|x: int, y: int, a: int, b: int|
            0 <= x < n && 0 <= y < links[x].len() && 0 <= a < b < links[x][y].len() implies #[trigger] links[x][y][a]
                != #[trigger] links[x][y][b] by {
            if x == i && y == l {
            } else {
                assert(links[x][y] == old_links[x][y]);
            }
        }
    }

    /// Add `new_id` to list `layer` of `nid`, then prune that list to
    /// `max_links`.
    fn connect<F: Fn(&[T], &[T]) -> u32>(&mut self, nid: u64, new_id: u64, layer: u8, max_links: usize, dist: &F)
        requires
            old(self).navigable(),
            total_metric(*dist),
            nid < old(self).n,
            new_id < old(self).n,
            nid != new_id,
            layer <= old(self).levels@[nid as int],
            layer <= old(self).levels@[new_id as int],
            !old(self).links()[nid as int][layer as int].contains(new_id),
        ensures
            final(self).navigable(),
            final(self).n == old(self).n,
            final(self).dim == old(self).dim,
            final(self).metric == old(self).metric,
            final(self).params == old(self).params,
            final(self).data == old(self).data,
            final(self).levels == old(self).levels,
            final(self).entry_point == old(self).entry_point,
            final(self).max_level == old(self).max_level,
            final(self).links() == old(self).links().update(
                nid as int,
                old(self).links()[nid as int].update(layer as int, final(self).links()[nid as int][layer as int]),
            ),
            final(self).links()[nid as int][layer as int].len() == if old(self).links()[nid as int][layer as int].len() + 1
                <= max_links {
                old(self).links()[nid as int][layer as int].len() + 1int
            } else {
                max_links as int
            },
            forall|x: u64|
                final(self).links()[nid as int][layer as int].contains(x) ==> old(self).links()[nid as int][layer as int].contains(x)
                    || x == new_id,
            final(self).links()[nid as int][layer as int].contains(new_id) || final(self).links()[nid as int][layer as int].len()
                == max_links,
            joined_or_pruned(
                *dist,
                old(self).rows(),
                old(self).links()[nid as int][layer as int],
                final(self).links()[nid as int][layer as int],
                nid,
                new_id,
                max_links as int,
            ),
            !final(self).links()[nid as int][layer as int].contains(new_id) ==> forall|a: int|
                0 <= a < final(self).links()[nid as int][layer as int].len() ==> no_farther(
                    *dist,
                    old(self).rows()[nid as int],
                    old(self).rows()[#[trigger] final(self).links()[nid as int][layer as int][a] as int],
                    old(self).rows()[new_id as int],
                ),
    {
        let ni = nid as usize;
        let li = layer as usize;
        let ghost old_links = self.links();
        let ghost nb_old = self.neighbors@;
        assert(old_links[ni as int].len() == self.levels@[ni as int] + 1);
        assert(self.neighbors@[ni as int]@[li as int]@ == old_links[ni as int][li as int]);
        self.neighbors[ni][li].push(new_id);
        let ghost w = old_links[ni as int][li as int].push(new_id);
        proof {
            Self::lemma_links_update(nb_old, self.neighbors@, ni as int, li as int, w);
            let w0 = old_links[ni as int][li as int];
            assert forall|x: u64| #[trigger] w.contains(x) implies x < self.n && self.levels@[x as int] >= li && x != ni by {
                let k = choose|k: int| 0 <= k < w.len() && w[k] == x;
                if k < w0.len() {
                    assert(w0[k] == old_links[ni as int][li as int][k]);
                }
            }
            assert forall|a: int, b: int| 0 <= a < b < w.len() implies #[trigger] w[a] != #[trigger] w[b] by {
                if b == w0.len() {
                    assert(w0.contains(w[a]));
                }
            }
            self.lemma_replace_list_keeps_graph(old_links, ni as int, li as int, w);
        }
        let ghost mid_links = self.links();
        self.prune_neighbors(nid, layer, max_links, dist);
        proof {
            let target = old_links.update(
                ni as int,
                old_links[ni as int].update(li as int, self.links()[ni as int][li as int]),
            );
            assert(self.links()[ni as int] =~= target[ni as int]);
            assert forall|x: int| 0 <= x < target.len() implies self.links()[x] == target[x] by {
                if x != ni {
                    assert(self.links()[x] == mid_links[x]);
                }
            }
            assert(self.links() =~= target);
            assert forall|x: u64| self.links()[ni as int][li as int].contains(x) implies old_links[ni as int][li as int].contains(x)
                || x == new_id by {
                assert(w.contains(x));
                let k = choose|k: int| 0 <= k < w.len() && w[k] == x;
                if k < old_links[ni as int][li as int].len() {
                    assert(old_links[ni as int][li as int][k] == x);
                }
            }
            if w.len() <= max_links {
                assert(self.links() == mid_links);
                assert(w[w.len() - 1] == new_id);
            }
            assert(mid_links[ni as int][li as int] == w);
            assert(self.rows() == old(self).rows());
            if w.len() > max_links {
                assert forall|z: u64| self.links()[ni as int][li as int].contains(z) implies w.contains(z) by {}
            }
            let last = w.len() - 1;
            assert(w[last] == new_id);
            if !self.links()[ni as int][li as int].contains(new_id) {
                assert forall|a: int| 0 <= a < self.links()[ni as int][li as int].len() implies no_farther(
                    *dist,
                    old(self).rows()[nid as int],
                    old(self).rows()[#[trigger] self.links()[ni as int][li as int][a] as int],
                    old(self).rows()[new_id as int],
                ) by {
                    assert(!self.links()[ni as int][li as int].contains(w[last]));
                }
            }
        }
    }

    /// Append `vector` as a new node on layers `0..=level`, with empty
    /// neighbor lists.
    fn append_node(&mut self, vector: &[T], level: u8)
        requires
            old(self).navigable(),
            degrees_ok(old(self).params, old(self).links()),
            vector@.len() == old(self).dim,
            old(self).n < usize::MAX,
        ensures
            final(self).navigable(),
            degrees_ok(final(self).params, final(self).links()),
            final(self).n == old(self).n + 1,
            final(self).dim == old(self).dim,
            final(self).metric == old(self).metric,
            final(self).params == old(self).params,
            final(self).entry_point == old(self).entry_point,
            final(self).max_level == old(self).max_level,
            final(self).rows() == old(self).rows().push(vector@),
            final(self).levels@ == old(self).levels@.push(level),
            final(self).links() == old(self).links().push(Seq::new(level as nat + 1, |l: int| Seq::<u64>::empty())),
    {
        let ghost old_data = self.data@;
        let ghost old_rows = self.rows();
        let ghost old_links = self.links();
        let ghost old_levels = self.levels@;
        let mut j: usize = 0;
        while j < vector.len()
            invariant
                j <= vector@.len(),
                self.n == old(self).n,
                self.dim == old(self).dim,
                self.metric == old(self).metric,
                self.params == old(self).params,
                self.levels == old(self).levels,
                self.neighbors == old(self).neighbors,
                self.entry_point == old(self).entry_point,
                self.max_level == old(self).max_level,
                self.n < usize::MAX,
                old_data.len() == self.n * self.dim,
                vector@.len() == self.dim,
                self.data@ == old_data + vector@.subrange(0, j as int),
            decreases vector@.len() - j,
        {
            self.data.push(vector[j]);
            assert(vector@.subrange(0, j + 1) =~= vector@.subrange(0, j as int).push(vector@[j as int]));
            j = j + 1;
        }
        proof {
            assert(vector@.subrange(0, vector@.len() as int) =~= vector@);
            lemma_append_row(old_data, vector@, self.n as int, self.dim as int);
        }
        self.levels.push(level);
        let mut lists: Vec<Vec<u64>> = Vec::with_capacity(level as usize + 1);
        let mut c: usize = 0;
        while c <= level as usize
            invariant
                c <= level as usize + 1,
                lists@.len() == c,
                forall|y: int| 0 <= y < c ==> (#[trigger] lists@[y])@ == Seq::<u64>::empty(),
            decreases level as usize + 1 - c,
        {
            lists.push(Vec::new());
            c = c + 1;
        }
        let ghost empties = Seq::new(level as nat + 1, |l: int| Seq::<u64>::empty());
        let ghost nb_old = self.neighbors@;
        self.neighbors.push(lists);
        self.n = self.n + 1;
        proof {
            assert(self.rows() =~= old_rows.push(vector@));
            assert(lists@.map_values(|w: Vec<u64>| w@) =~= empties);
            assert(self.links() =~= old_links.push(empties));
            let links = self.links();
            let n = self.n as int;
            assert forall|i: int| 0 <= i < n implies #[trigger] links[i].len() == self.levels@[i] + 1 by {
                if i < n - 1 {
                    assert(links[i] == old_links[i]);
                }
            }
            assert forall|i: int, l: int, jj: int|
                0 <= i < n && 0 <= l < links[i].len() && 0 <= jj < links[i][l].len() implies {
                    let x = #[trigger] links[i][l][jj];
                    &&& x < n
                    &&& self.levels@[x as int] >= l
                    &&& x != i
                } by {
                assert(i < n - 1);
                assert(links[i] == old_links[i]);
                assert(old_links[i][l][jj] < n - 1);
            }
            assert forall|i: int, l: int, a: int, b: int|
                0 <= i < n && 0 <= l < links[i].len() && 0 <= a < b < links[i][l].len() implies #[trigger] links[i][l][a]
                    != #[trigger] links[i][l][b] by {
                assert(links[i] == old_links[i]);
            }
            assert forall|i: int, l: int| 0 <= i < links.len() && 0 <= l < links[i].len() implies #[trigger] links[i][l].len()
                <= degree_bound(self.params, l) by {
                if i < n - 1 {
                    assert(links[i] == old_links[i]);
                }
            }
        }
    }

    /// One construction step on `layer`: search for the new node's nearest
    /// neighbors on the layer, link the new node to the `m` closest, link
    /// each of them back to the new node (pruning lists that grow too long),
    /// and return the IDs found as entry points for the layer below.
    #[verifier::rlimit(30)]
    fn link_layer<F: Fn(&[T], &[T]) -> u32>(
        &mut self,
        vector: &[T],
        new_id: u64,
        layer: u8,
        entry_points: &Vec<u64>,
        dist: &F,
    ) -> (next: Vec<u64>)
        requires
            old(self).navigable(),
            degrees_ok(old(self).params, old(self).links()),
            total_metric(*dist),
            new_id < old(self).n,
            layer <= old(self).levels@[new_id as int],
            old(self).links()[new_id as int][layer as int].len() == 0,
            absent_below(old(self).links(), layer as int, new_id),
            entry_points@.len() > 0,
            forall|e: int|
                0 <= e < entry_points@.len() ==> #[trigger] entry_points@[e] < old(self).n && entry_points@[e] != new_id
                    && old(self).levels@[entry_points@[e] as int] >= layer,
        ensures
            final(self).navigable(),
            degrees_ok(final(self).params, final(self).links()),
            final(self).n == old(self).n,
            final(self).dim == old(self).dim,
            final(self).metric == old(self).metric,
            final(self).params == old(self).params,
            final(self).data == old(self).data,
            final(self).levels == old(self).levels,
            final(self).entry_point == old(self).entry_point,
            final(self).max_level == old(self).max_level,
            absent_below(final(self).links(), layer - 1, new_id),
            gained_only(old(self).links(), final(self).links(), new_id),
            final(self).links()[new_id as int] == old(self).links()[new_id as int].update(
                layer as int,
                final(self).links()[new_id as int][layer as int],
            ),
            final(self).links()[new_id as int][layer as int].len() <= old(self).params.m,
            old(self).params.m > 0 ==> final(self).links()[new_id as int][layer as int].len() > 0,
            exists|out: Seq<SearchResult>|
                #[trigger] beam_outcome(
                    *dist,
                    vector@,
                    old(self).rows(),
                    layer_lists(old(self).links(), layer as int),
                    entry_points@,
                    Self::beam_width(old(self).params.ef_construction),
                    out,
                ) && final(self).links()[new_id as int][layer as int] == first_ids(out, old(self).params.m as int)
                    && next@ == ids_of(out),
            forall|i: int, y: int|
                0 <= i < old(self).links().len() && 0 <= y < old(self).links()[i].len() && y != layer
                    ==> #[trigger] final(self).links()[i][y] == old(self).links()[i][y],
            forall|j: int|
                0 <= j < final(self).links()[new_id as int][layer as int].len() ==> {
                    let x = #[trigger] final(self).links()[new_id as int][layer as int][j];
                    joined_or_pruned(
                        *dist,
                        old(self).rows(),
                        old(self).links()[x as int][layer as int],
                        final(self).links()[x as int][layer as int],
                        x,
                        new_id,
                        degree_cap(old(self).params, layer as int),
                    )
                },
            next@.len() > 0,
            forall|e: int|
                0 <= e < next@.len() ==> #[trigger] next@[e] < final(self).n && next@[e] != new_id
                    && final(self).levels@[next@[e] as int] >= layer,
    {
        let ghost links0 = self.links();
        let ghost ids0 = entry_points@;
        let found = self.search_layer(vector, entry_points.as_slice(), self.params.ef_construction, layer, dist);
        proof {
            assert forall|j: int| 0 <= j < found@.len() implies (#[trigger] found@[j]).id != new_id by {
                assert(self.reached(*dist, vector@, ids0, layer as int, found@[j]));
                if ids0.contains(found@[j].id) {
                    let e = choose|e: int| 0 <= e < ids0.len() && ids0[e] == found@[j].id;
                    assert(ids0[e] != new_id);
                } else {
                    let (i, jj) = choose|i: int, jj: int|
                        0 <= i < links0.len() && 0 <= layer < links0[i].len() && 0 <= jj < links0[i][layer as int].len()
                            && #[trigger] links0[i][layer as int][jj] == found@[j].id;
                    assert(links0[i][layer as int][jj] != new_id);
                }
            }
        }
        proof {
            assert forall|j: int| 0 <= j < found@.len() implies (#[trigger] found@[j]).id < self.n
                && self.levels@[found@[j].id as int] >= layer by {
                assert(self.reached(*dist, vector@, ids0, layer as int, found@[j]));
            }
        }
        let selected = Self::select_neighbors_simple(&found, self.params.m);
        let mut own: Vec<u64> = Vec::with_capacity(selected.len());
        let mut t: usize = 0;
        while t < selected.len()
            invariant
                t <= selected@.len(),
                own@ == selected@.subrange(0, t as int),
            decreases selected@.len() - t,
        {
            own.push(selected[t]);
            t = t + 1;
        }
        proof {
            assert(own@ =~= selected@);
        }
        let ni = new_id as usize;
        let li = layer as usize;
        let ghost nb_old = self.neighbors@;
        assert(links0[ni as int].len() == self.levels@[ni as int] + 1);
        self.neighbors[ni][li] = own;
        proof {
            Self::lemma_links_update(nb_old, self.neighbors@, ni as int, li as int, selected@);
            assert forall|x: u64| #[trigger] selected@.contains(x) implies x < self.n && self.levels@[x as int] >= li && x != ni by {
                let k = choose|k: int| 0 <= k < selected@.len() && selected@[k] == x;
                assert(found@[k].id != new_id);
            }
            assert forall|a: int, b: int| 0 <= a < b < selected@.len() implies #[trigger] selected@[a] != #[trigger] selected@[b] by {
                assert(found@[a].id != found@[b].id);
            }
            self.lemma_replace_list_keeps_graph(links0, ni as int, li as int, selected@);
            assert(self.links()[ni as int] == links0[ni as int].update(layer as int, selected@));
            assert(gained_only(links0, self.links(), new_id));
            assert(degree_bound(self.params, layer as int) >= self.params.m);
            let links = self.links();
            assert forall|i: int, l: int| 0 <= i < links.len() && 0 <= l < links[i].len() implies #[trigger] links[i][l].len()
                <= degree_bound(self.params, l) by {
                if i != ni || l != li {
                    assert(links[i][l] == links0[i][l]);
                }
            }
            assert forall|i: int, l: int, j: int|
                0 <= i < links.len() && 0 <= l < links[i].len() && l <= layer && 0 <= j < links[i][l].len() implies #[trigger] links[i][l][j]
                    != new_id by {
                if i != ni || l != li {
                    assert(links[i][l] == links0[i][l]);
                } else {
                    assert(selected@.contains(links[i][l][j]));
                }
            }
            assert forall|i: int, y: int|
                0 <= i < links0.len() && 0 <= y < links0[i].len() && y != layer implies #[trigger] links[i][y] == links0[i][y] by {
                if i != ni {
                    assert(links[i] == links0[i]);
                }
            }
        }
        let max_links = if layer == 0 { self.params.m_max0 } else { self.params.m };
        let ghost links1 = self.links();
        proof {
            assert forall|a: int| 0 <= a < selected@.len() implies self.links()[#[trigger] selected@[a] as int][layer as int]
                == links0[selected@[a] as int][layer as int] by {
                assert(selected@[a] != ni);
                assert(self.links()[selected@[a] as int] == links0[selected@[a] as int]);
            }
        }
        let count = selected.len();
        let mut t: usize = 0;
        while t < count
            invariant
                self.navigable(),
                degrees_ok(self.params, self.links()),
                total_metric(*dist),
                count == selected@.len(),
                t <= count,
                self.n == old(self).n,
                self.dim == old(self).dim,
                self.metric == old(self).metric,
                self.params == old(self).params,
                self.data == old(self).data,
                self.levels == old(self).levels,
                self.entry_point == old(self).entry_point,
                self.max_level == old(self).max_level,
                new_id < self.n,
                ni == new_id,
                li == layer,
                layer <= self.levels@[new_id as int],
                max_links as int == degree_cap(self.params, layer as int),
                forall|a: int| 0 <= a < count ==> #[trigger] selected@[a] < self.n && selected@[a] != new_id
                    && self.levels@[selected@[a] as int] >= layer,
                forall|a: int, b: int| 0 <= a < b < count ==> #[trigger] selected@[a] != #[trigger] selected@[b],
                absent_below(self.links(), layer - 1, new_id),
                forall|a: int| t <= a < count ==> !self.links()[#[trigger] selected@[a] as int][layer as int].contains(new_id),
                gained_only(links0, self.links(), new_id),
                self.links()[ni as int] == links1[ni as int],
                links1[ni as int] == links0[ni as int].update(layer as int, selected@),
                forall|i: int, y: int|
                    0 <= i < links0.len() && 0 <= y < links0[i].len() && y != layer ==> #[trigger] self.links()[i][y]
                        == links0[i][y],
                forall|a: int|
                    0 <= a < t ==> joined_or_pruned(
                        *dist,
                        old(self).rows(),
                        links0[#[trigger] selected@[a] as int][layer as int],
                        self.links()[selected@[a] as int][layer as int],
                        selected@[a],
                        new_id,
                        max_links as int,
                    ),
                forall|a: int|
                    t <= a < count ==> self.links()[#[trigger] selected@[a] as int][layer as int] == links0[selected@[a] as int][layer as int],
            decreases count - t,
        {
            let nid = selected[t];
            let ghost before = self.links();
            proof {
                assert(before[nid as int].len() == self.levels@[nid as int] + 1);
            }
            self.connect(nid, new_id, layer, max_links, dist);
            proof {
                let links = self.links();
                let w_old = before[nid as int][layer as int];
                assert(w_old.len() <= degree_bound(self.params, layer as int));
                assert forall|i: int, l: int| 0 <= i < links.len() && 0 <= l < links[i].len() implies #[trigger] links[i][l].len()
                    <= degree_bound(self.params, l) by {
                    if i != nid || l != layer {
                        assert(links[i][l] == before[i][l]);
                    }
                }
                assert forall|i: int, l: int, j: int|
                    0 <= i < links.len() && 0 <= l < links[i].len() && l <= layer - 1 && 0 <= j < links[i][l].len() implies #[trigger] links[i][l][j]
                        != new_id by {
                    assert(links[i][l] == before[i][l]);
                }
                assert forall|a: int| t + 1 <= a < count implies !links[#[trigger] selected@[a] as int][layer as int].contains(new_id) by {
                    assert(selected@[a] != nid);
                    assert(links[selected@[a] as int] == before[selected@[a] as int]);
                }
                assert forall|i: int| 0 <= i < links0.len() && i != new_id implies (#[trigger] links[i]).len() == links0[i].len() by {
                    if i != nid {
                        assert(links[i] == before[i]);
                    }
                }
                assert forall|i: int, l: int, y: u64|
                    0 <= i < links0.len() && i != new_id && 0 <= l < links0[i].len() && #[trigger] links[i][l].contains(y)
                        implies links0[i][l].contains(y) || y == new_id by {
                    if i != nid || l != layer {
                        assert(links[i][l] == before[i][l]);
                    } else {
                        assert(before[i][l].contains(y) || y == new_id);
                    }
                }
                assert(links[ni as int] == before[ni as int]);
                assert forall|i: int, y: int|
                    0 <= i < links0.len() && 0 <= y < links0[i].len() && y != layer implies #[trigger] links[i][y] == links0[i][y] by {
                    if i != nid {
                        assert(links[i] == before[i]);
                    } else {
                        assert(links[i][y] == before[i][y]);
                    }
                }
                assert(self.rows() == old(self).rows());
                assert forall|a: int|
                    0 <= a < t + 1 implies joined_or_pruned(
                    *dist,
                    old(self).rows(),
                    links0[#[trigger] selected@[a] as int][layer as int],
                    links[selected@[a] as int][layer as int],
                    selected@[a],
                    new_id,
                    max_links as int,
                ) by {
                    if a < t {
                        assert(selected@[a] != nid);
                        assert(links[selected@[a] as int] == before[selected@[a] as int]);
                    }
                }
                assert forall|a: int|
                    t + 1 <= a < count implies links[#[trigger] selected@[a] as int][layer as int] == links0[selected@[a] as int][layer as int] by {
                    assert(selected@[a] != nid);
                    assert(links[selected@[a] as int] == before[selected@[a] as int]);
                }
            }
            t = t + 1;
        }
        let mut next: Vec<u64> = Vec::with_capacity(found.len());
        let mut t: usize = 0;
        while t < found.len()
            invariant
                t <= found@.len(),
                next@.len() == t,
                forall|a: int| 0 <= a < t ==> #[trigger] next@[a] == found@[a].id,
            decreases found@.len() - t,
        {
            next.push(found[t].id);
            t = t + 1;
        }
        proof {
            assert forall|e: int| 0 <= e < next@.len() implies #[trigger] next@[e] < self.n && next@[e] != new_id
                && self.levels@[next@[e] as int] >= layer by {
                assert(next@[e] == found@[e].id);
            }
            assert(next@ =~= ids_of(found@));
            assert(self.links()[ni as int] =~= links0[ni as int].update(layer as int, self.links()[ni as int][layer as int]));
            assert(self.links()[ni as int][li as int] == selected@);
            assert(self.rows() == old(self).rows());
            assert(beam_outcome(
                *dist,
                vector@,
                old(self).rows(),
                layer_lists(old(self).links(), layer as int),
                entry_points@,
                Self::beam_width(old(self).params.ef_construction),
                found@,
            ));
            assert forall|j: int| 0 <= j < self.links()[new_id as int][layer as int].len() implies {
                let x = #[trigger] self.links()[new_id as int][layer as int][j];
                joined_or_pruned(
                    *dist,
                    old(self).rows(),
                    old(self).links()[x as int][layer as int],
                    self.links()[x as int][layer as int],
                    x,
                    new_id,
                    degree_cap(self.params, layer as int),
                )
            } by {
                assert(self.links()[new_id as int][layer as int][j] == selected@[j]);
            }
        }
        next
    }

    /// Dimensionality of the vectors this index stores.
    pub fn dim(&self) -> (d: usize)
        ensures
            d == self.spec_dim(),
    {
        self.dim
    }

    /// Number of vectors currently in the index.
    pub fn len(&self) -> (n: usize)
        ensures
            n == self.rows().len(),
    {
        self.n
    }

    /// True if no vectors have been inserted yet.
    pub fn is_empty(&self) -> (b: bool)
        ensures
            b <==> self.rows().len() == 0,
    {
        self.n == 0
    }

    /// The metric this index uses.
    pub fn metric(&self) -> (m: Distance)
        ensures
            m == self.spec_metric(),
    {
        self.metric
    }

    /// The construction and query parameters.
    pub fn params(&self) -> (p: HnswParams)
        ensures
            p == self.spec_params(),
    {
        self.params
    }

    /// The node where searches start, or `None` if the index is empty.
    pub fn entry_point(&self) -> (e: Option<u64>)
        ensures
            e == self.spec_entry_point(),
    {
        self.entry_point
    }

    /// The highest layer present in the index.
    pub fn max_level(&self) -> (l: u8)
        ensures
            l == self.spec_max_level(),
    {
        self.max_level
    }

    /// How an insertion of `vector` as node `id` at `level`, with distances
    /// measured by the oracle `f`, turned `before` into `after`: the vector was
    /// appended with that level, the lists changed as [`insert_links_post`]
    /// says, the new node was placed by a greedy descent from the entry point
    /// and a beam search of width `ef_construction` per linked layer, each
    /// from the nodes found on the layer above, listing the first `m` nodes
    /// found, nearest first ([`placed_by_searches`]); each of those nodes
    /// appended it to its list, or pruned its list to its nearest nodes
    /// ([`linked_back`]); and a node above the top layer (or the first node)
    /// became the entry point.
    pub open spec fn insert_post<F: Fn(&[T], &[T]) -> u32>(
        before: Self,
        after: Self,
        vector: Seq<T>,
        level: u8,
        id: u64,
        f: F,
    ) -> bool {
        &&& vector.len() == before.spec_dim()
        &&& id == before.rows().len()
        &&& after.rows() == before.rows().push(vector)
        &&& after.spec_levels() == before.spec_levels().push(level)
        &&& insert_links_post(
            before.links(),
            after.links(),
            id,
            level,
            top_linked_layer(before.spec_entry_point(), before.spec_max_level(), level),
            before.spec_params().m,
        )
        &&& before.spec_entry_point() is Some ==> exists|ep: u64, outs: Seq<Seq<SearchResult>>|
            #[trigger] placed_by_searches(
                f,
                vector,
                after.rows(),
                with_new_node(before.links(), level),
                before.spec_entry_point().unwrap(),
                before.spec_max_level() as int,
                top_linked_layer(before.spec_entry_point(), before.spec_max_level(), level),
                Self::beam_width(before.spec_params().ef_construction),
                before.spec_params().m as int,
                after.links()[id as int],
                outs,
                ep,
            )
        &&& linked_back(
            f,
            after.rows(),
            with_new_node(before.links(), level),
            after.links(),
            id,
            top_linked_layer(before.spec_entry_point(), before.spec_max_level(), level),
            before.spec_params(),
        )
        &&& if before.spec_entry_point() is None || level > before.spec_max_level() {
            &&& after.spec_entry_point() == Some(id)
            &&& after.spec_max_level() == level
        } else {
            &&& after.spec_entry_point() == before.spec_entry_point()
            &&& after.spec_max_level() == before.spec_max_level()
        }
    }

    /// Insert a single vector, as a node on layers `0..=level`. Returns the
    /// assigned ID, which is the number of vectors stored before the call.
    ///
    /// The new node is linked, on each of its layers that the graph already
    /// has, to at most `m` of the nearest nodes found by a beam search of
    /// width `ef_construction`, and each of those nodes is linked back to it
    /// (its list then pruned to `m_max0` on layer 0, `m` above, which may drop
    /// the new node again from a full list). A node whose level exceeds the
    /// current top layer becomes the entry point.
    #[verifier::rlimit(30)]
    pub fn insert_at_level<F: Fn(&[T], &[T]) -> u32>(&mut self, vector: &[T], level: u8, dist: &F) -> (r: Result<
        u64,
        VexError,
    >)
        requires
            old(self).wf(),
            old(self).rows().len() < usize::MAX,
            total_metric(*dist),
        ensures
            final(self).wf(),
            final(self).spec_dim() == old(self).spec_dim(),
            final(self).spec_metric() == old(self).spec_metric(),
            final(self).spec_params() == old(self).spec_params(),
            match r {
                Err(e) => {
                    &&& vector@.len() != old(self).spec_dim()
                    &&& e == VexError::DimensionMismatch { expected: old(self).spec_dim() as usize, got: vector@.len() as usize }
                    &&& *final(self) == *old(self)
                },
                Ok(id) => Self::insert_post(*old(self), *final(self), vector@, level, id, *dist),
            },
    {
        if vector.len() != self.dim {
            return Err(VexError::DimensionMismatch { expected: self.dim, got: vector.len() });
        }
        let new_id = self.n as u64;
        let ghost links0 = self.links();
        let ghost n0 = self.n as int;
        self.append_node(vector, level);
        let ghost links_a = self.links();
        proof {
            assert forall|i: int, l: int, j: int|
                0 <= i < links_a.len() && 0 <= l < links_a[i].len() && l <= 256 && 0 <= j < links_a[i][l].len() implies #[trigger] links_a[i][l][j]
                    != new_id by {
                assert(i < n0);
                assert(links_a[i] == links0[i]);
            }
        }
        if self.entry_point.is_none() {
            self.entry_point = Some(new_id);
            self.max_level = level;
            proof {
                assert(self.levels@.len() == 1);
                assert(insert_links_post(links0, self.links(), new_id, level, -1, self.params.m));
            }
            return Ok(new_id);
        }
        let mut ep = self.entry_point.unwrap();
        let ghost e0 = ep;
        let cur_max = self.max_level;
        proof {
            assert(self.levels@[ep as int] == cur_max);
        }
        if level < cur_max {
            let mut layer = cur_max;
            while layer > level
                invariant
                    self.navigable(),
                    total_metric(*dist),
                    level <= layer <= cur_max,
                    links_a == self.links(),
                    absent_below(links_a, 256, new_id),
                    new_id < self.n,
                    ep < self.n,
                    ep != new_id,
                    self.levels@[ep as int] >= layer,
                    layered_descent(*dist, vector@, self.rows(), links_a, e0, cur_max as int, layer as int, ep),
                decreases layer,
            {
                let c = self.greedy_search(vector, ep, layer, dist);
                proof {
                    let p = choose|p: Seq<SearchResult>|
                        descent(*dist, vector@, self.rows(), self.links(), layer as int, ep, p) && p.last() == c && (p.len()
                            == 1 || crate::ieee::spec_lt(c.distance, p[0].distance));
                    assert(descent(*dist, vector@, self.rows(), links_a, (layer - 1) + 1, ep, p));
                    assert(layered_descent(*dist, vector@, self.rows(), links_a, e0, cur_max as int, (layer - 1) + 1, ep));
                    assert(local_min_in(*dist, vector@, self.rows(), links_a, (layer - 1) + 1, p.last()));
                    if c.id != ep {
                        let (i, jj) = choose|i: int, jj: int|
                            0 <= i < links_a.len() && 0 <= layer < links_a[i].len() && 0 <= jj < links_a[i][layer as int].len()
                                && #[trigger] links_a[i][layer as int][jj] == c.id;
                        assert(links_a[i][layer as int][jj] != new_id);
                    }
                }
                ep = c.id;
                layer = layer - 1;
            }
        }
        let top = if level < cur_max { level } else { cur_max };
        let mut l: u8 = top;
        let mut more = true;
        let mut entry_points: Vec<u64> = Vec::new();
        entry_points.push(ep);
        let ghost mut outs: Seq<Seq<SearchResult>> = Seq::new(top as nat + 1, |y: int| Seq::<SearchResult>::empty());
        proof {
            assert(self.links()[new_id as int] == Seq::new(level as nat + 1, |l: int| Seq::<u64>::empty()));
            assert(entry_points@ =~= seq![ep]);
        }
        while more
            invariant
                self.navigable(),
                degrees_ok(self.params, self.links()),
                total_metric(*dist),
                self.n == n0 + 1,
                new_id == n0,
                self.dim == old(self).dim,
                self.metric == old(self).metric,
                self.params == old(self).params,
                self.entry_point == old(self).entry_point,
                self.max_level == old(self).max_level,
                self.rows() == old(self).rows().push(vector@),
                self.levels@ == old(self).levels@.push(level),
                old(self).entry_point is Some,
                cur_max == old(self).max_level,
                top == if level < cur_max { level } else { cur_max },
                l <= top,
                ep < self.n,
                ep != new_id,
                more ==> self.levels@[ep as int] >= l,
                more ==> absent_below(self.links(), l as int, new_id),
                gained_only(links_a, self.links(), new_id),
                self.links()[new_id as int].len() == level + 1,
                forall|y: int| 0 <= y <= level ==> (#[trigger] self.links()[new_id as int][y]).len() <= self.params.m,
                forall|y: int| 0 <= y <= level && (y > top || (more && y <= l)) ==> (#[trigger] self.links()[new_id as int][y]).len() == 0,
                self.params.m > 0 ==> forall|y: int|
                    0 <= y <= top && (y > l || !more) ==> (#[trigger] self.links()[new_id as int][y]).len() > 0,
                outs.len() == top + 1,
                layered_descent(*dist, vector@, self.rows(), links_a, e0, cur_max as int, top as int, ep),
                e0 == old(self).entry_point.unwrap(),
                more ==> entry_points@ == if l == top { seq![ep] } else { ids_of(outs[l + 1]) },
                forall|y: int| 0 <= y <= top && (y > l || !more) ==> (#[trigger] outs[y]).len() > 0,
                forall|y: int, j: int|
                    0 <= y <= top && (y > l || !more) && 0 <= j < outs[y].len() ==> (#[trigger] outs[y][j]).id < n0,
                forall|y: int|
                    0 <= y <= top && (y > l || !more) ==> layer_found(
                        *dist,
                        vector@,
                        self.rows(),
                        links_a,
                        y,
                        if y == top { seq![ep] } else { ids_of(outs[y + 1]) },
                        Self::beam_width(self.params.ef_construction),
                        self.params.m as int,
                        #[trigger] outs[y],
                        self.links()[new_id as int][y],
                    ),
                self.links().len() == links_a.len(),
                forall|i: int| 0 <= i < links_a.len() ==> (#[trigger] self.links()[i]).len() == links_a[i].len(),
                more ==> forall|i: int, y: int|
                    0 <= i < links_a.len() && 0 <= y < links_a[i].len() && y <= l ==> #[trigger] self.links()[i][y]
                        == links_a[i][y],
                forall|y: int, j: int|
                    0 <= y <= top && (y > l || !more) && 0 <= j < self.links()[new_id as int][y].len() ==> {
                        let x = #[trigger] self.links()[new_id as int][y][j];
                        joined_or_pruned(
                            *dist,
                            self.rows(),
                            links_a[x as int][y],
                            self.links()[x as int][y],
                            x,
                            new_id,
                            degree_cap(self.params, y),
                        )
                    },
                more ==> entry_points@.len() > 0,
                more ==> forall|e: int|
                    0 <= e < entry_points@.len() ==> #[trigger] entry_points@[e] < self.n && entry_points@[e] != new_id
                        && self.levels@[entry_points@[e] as int] >= l,
            decreases l + if more { 1int } else { 0int },
        {
            let ghost before = self.links();
            let next = self.link_layer(vector, new_id, l, &entry_points, dist);
            proof {
                let after = self.links();
                assert forall|y: int| 0 <= y <= level implies (#[trigger] after[new_id as int][y]).len() <= self.params.m by {
                    if y != l {
                        assert(after[new_id as int][y] == before[new_id as int][y]);
                    }
                }
                assert forall|y: int| 0 <= y <= level && (y > top || (l > 0 && y <= l - 1)) implies (#[trigger] after[new_id as int][y]).len() == 0 by {
                    assert(after[new_id as int][y] == before[new_id as int][y]);
                }
                let out = choose|out: Seq<SearchResult>|
                    #[trigger] beam_outcome(
                        *dist,
                        vector@,
                        self.rows(),
                        layer_lists(before, l as int),
                        entry_points@,
                        Self::beam_width(self.params.ef_construction),
                        out,
                    ) && after[new_id as int][l as int] == first_ids(out, self.params.m as int) && next@ == ids_of(out);
                let outs0 = outs;
                outs = outs.update(l as int, out);
                assert forall|j: int| 0 <= j < out.len() implies (#[trigger] out[j]).id < n0 by {
                    assert(next@[j] == ids_of(out)[j]);
                }
                assert forall|y: int| 0 <= y <= top && y >= l implies (#[trigger] outs[y]).len() > 0 by {
                    if y != l {
                        assert(outs[y] == outs0[y]);
                    }
                }
                assert forall|y: int, j: int| 0 <= y <= top && y >= l && 0 <= j < outs[y].len() implies (#[trigger] outs[y][j]).id
                    < n0 by {
                    if y != l {
                        assert(outs[y] == outs0[y]);
                    }
                }
                assert(layer_lists(before, l as int) =~= layer_lists(links_a, l as int));
                assert forall|y: int|
                    0 <= y <= top && y >= l implies layer_found(
                    *dist,
                    vector@,
                    self.rows(),
                    links_a,
                    y,
                    if y == top { seq![ep] } else { ids_of(outs[y + 1]) },
                    Self::beam_width(self.params.ef_construction),
                    self.params.m as int,
                    #[trigger] outs[y],
                    after[new_id as int][y],
                ) by {
                    if y != l {
                        assert(after[new_id as int][y] == before[new_id as int][y]);
                        assert(outs[y] == outs0[y]);
                        if y < top {
                            assert(outs[y + 1] == outs0[y + 1]);
                        }
                    } else if y < top {
                        assert(outs[y + 1] == outs0[y + 1]);
                    }
                }
                assert forall|y: int, j: int|
                    0 <= y <= top && y >= l && 0 <= j < after[new_id as int][y].len() implies {
                    let x = #[trigger] after[new_id as int][y][j];
                    joined_or_pruned(
                        *dist,
                        self.rows(),
                        links_a[x as int][y],
                        after[x as int][y],
                        x,
                        new_id,
                        degree_cap(self.params, y),
                    )
                } by {
                    let x = after[new_id as int][y][j];
                    assert(x < self.n && self.levels@[x as int] >= y);
                    assert(x != new_id);
                    if y != l {
                        assert(after[new_id as int][y] == before[new_id as int][y]);
                        assert(before[new_id as int][y][j] == x);
                        assert(after[x as int][y] == before[x as int][y]);
                    } else {
                        assert(before[x as int][y] == links_a[x as int][y]);
                    }
                }
                assert forall|i: int| 0 <= i < links_a.len() implies (#[trigger] after[i]).len() == links_a[i].len() by {
                    assert(after[i].len() == before[i].len());
                }
                assert forall|i: int, y: int|
                    0 <= i < links_a.len() && 0 <= y < links_a[i].len() && y < l implies #[trigger] after[i][y] == links_a[i][y] by {
                    assert(after[i][y] == before[i][y]);
                }
                if self.params.m > 0 {
                    assert forall|y: int| 0 <= y <= top && y >= l implies (#[trigger] after[new_id as int][y]).len() > 0 by {
                        if y != l {
                            assert(after[new_id as int][y] == before[new_id as int][y]);
                        }
                    }
                }
                assert forall|i: int| 0 <= i < links_a.len() && i != new_id implies (#[trigger] after[i]).len() == links_a[i].len() by {
                    assert(after[i].len() == before[i].len());
                }
                assert forall|i: int, y: int, z: u64|
                    0 <= i < links_a.len() && i != new_id && 0 <= y < links_a[i].len() && #[trigger] after[i][y].contains(z)
                        implies links_a[i][y].contains(z) || z == new_id by {
                    assert(before[i][y].contains(z) || z == new_id);
                }
            }
            entry_points = next;
            if l == 0 {
                more = false;
            } else {
                l = l - 1;
            }
        }
        if level > cur_max {
            self.entry_point = Some(new_id);
            self.max_level = level;
        }
        proof {
            let links = self.links();
            assert(insert_links_post(links0, links, new_id, level, top as int, self.params.m)) by {
                assert forall|i: int, y: int, z: u64|
                    0 <= i < links0.len() && 0 <= y < links0[i].len() && #[trigger] links[i][y].contains(z)
                        implies links0[i][y].contains(z) || z == new_id by {
                    assert(links_a[i] == links0[i]);
                }
                assert forall|i: int| 0 <= i < links0.len() implies (#[trigger] links[i]).len() == links0[i].len() by {
                    assert(links_a[i] == links0[i]);
                }
            }
            assert forall|i: int| 0 <= i < self.n implies #[trigger] self.levels@[i] <= self.max_level by {
                if i < n0 {
                    assert(old(self).levels@[i] <= cur_max);
                }
            }
            assert(links_a == with_new_node(links0, level));
            assert(old(self).spec_params() == self.params);
            assert(placed_by_searches(
                *dist,
                vector@,
                self.rows(),
                links_a,
                e0,
                cur_max as int,
                top as int,
                Self::beam_width(self.params.ef_construction),
                self.params.m as int,
                self.links()[new_id as int],
                outs,
                ep,
            ));
            assert(linked_back(*dist, self.rows(), links_a, self.links(), new_id, top as int, self.params));
            let b = *old(self);
            let a = *self;
            assert(vector@.len() == b.spec_dim());
            assert(new_id == b.rows().len());
            assert(a.rows() == b.rows().push(vector@));
            assert(a.spec_levels() == b.spec_levels().push(level));
            assert(top_linked_layer(b.spec_entry_point(), b.spec_max_level(), level) == top as int);
            assert(insert_links_post(b.links(), a.links(), new_id, level, top as int, b.spec_params().m));
            assert(placed_by_searches(
                *dist,
                vector@,
                a.rows(),
                with_new_node(b.links(), level),
                b.spec_entry_point().unwrap(),
                b.spec_max_level() as int,
                top as int,
                Self::beam_width(b.spec_params().ef_construction),
                b.spec_params().m as int,
                a.links()[new_id as int],
                outs,
                ep,
            ));
            assert(linked_back(*dist, a.rows(), with_new_node(b.links(), level), a.links(), new_id, top as int, b.spec_params()));
            assert(Self::insert_post(*old(self), *self, vector@, level, new_id, *dist));
        }
        Ok(new_id)
    }

    /// Some level that `draw_level` can return was drawn, and the insertion
    /// at that level, measured by `f`, turned `before` into `after` as node
    /// `id`.
    pub open spec fn inserted_with_drawn_level<L: Fn() -> u8, F: Fn(&[T], &[T]) -> u32>(
        before: Self,
        after: Self,
        vector: Seq<T>,
        id: u64,
        draw_level: L,
        f: F,
    ) -> bool {
        exists|level: u8|
            call_ensures(draw_level, (), level) && #[trigger] Self::insert_post(before, after, vector, level, id, f)
    }

    /// Insert a single vector. Returns the assigned ID, which is the number of
    /// vectors stored before the call. A vector of the wrong dimensionality is
    /// refused before anything else happens; otherwise `draw_level()` is
    /// called once to draw the new node's top layer and the vector is
    /// inserted at that level (see [`HnswIndex::insert_at_level`]).
    pub fn insert<F: Fn(&[T], &[T]) -> u32, L: Fn() -> u8>(&mut self, vector: &[T], draw_level: &L, dist: &F) -> (r:
        Result<u64, VexError>)
        requires
            old(self).wf(),
            old(self).rows().len() < usize::MAX,
            total_metric(*dist),
            draw_level.requires(()),
        ensures
            final(self).wf(),
            final(self).spec_dim() == old(self).spec_dim(),
            final(self).spec_metric() == old(self).spec_metric(),
            final(self).spec_params() == old(self).spec_params(),
            match r {
                Err(e) => {
                    &&& vector@.len() != old(self).spec_dim()
                    &&& e == VexError::DimensionMismatch { expected: old(self).spec_dim() as usize, got: vector@.len() as usize }
                    &&& *final(self) == *old(self)
                },
                Ok(id) => Self::inserted_with_drawn_level(*old(self), *final(self), vector@, id, *draw_level, *dist),
            },
    {
        if vector.len() != self.dim {
            return Err(VexError::DimensionMismatch { expected: self.dim, got: vector.len() });
        }
        let level = draw_level();
        let ghost before = *self;
        let r = self.insert_at_level(vector, level, dist);
        proof {
            if let Ok(id) = r {
                assert(Self::insert_post(before, *self, vector@, level, id, *dist));
            }
        }
        r
    }

    /// The oracle distance from `query` to every stored vector, by ID.
    fn measure_all<F: Fn(&[T], &[T]) -> u32>(&self, query: &[T], dist: &F) -> (ds: Vec<u32>)
        requires
            self.navigable(),
            total_metric(*dist),
        ensures
            rows_measured(*dist, query@, self.rows(), ds@),
    {
        let mut ds: Vec<u32> = Vec::with_capacity(self.n);
        let mut i: usize = 0;
        while i < self.n
            invariant
                i <= self.n,
                self.navigable(),
                total_metric(*dist),
                ds@.len() == i,
                forall|j: int| 0 <= j < i ==> measured(*dist, query@, self.rows()[j], #[trigger] ds@[j]),
            decreases self.n - i,
        {
            let row = self.vector_of(i as u64);
            let d = dist(query, row);
            ds.push(d);
            i = i + 1;
        }
        ds
    }

    /// What a search for the `k` nearest neighbors of `q` returns as `hits`:
    /// the greedy descent from the entry point through layers
    /// `max_level..1` ends at `start`; a beam search of width
    /// `max(ef_search, k)` on layer 0 from `start` returns `out`, whose first
    /// node is a local minimum when the oracle never returns NaN; the hits
    /// are the first `k` of `out`, or, when `out` holds fewer than `k`
    /// nodes, the exact `k` nearest of all stored vectors.
    pub open spec fn search_post<F: Fn(&[T], &[T]) -> u32>(&self, f: F, q: Seq<T>, k: usize, hits: Seq<SearchResult>) -> bool {
        exists|start: u64, out: Seq<SearchResult>|
            start < self.rows().len() && layered_descent(
                f,
                q,
                self.rows(),
                self.links(),
                self.spec_entry_point().unwrap(),
                self.spec_max_level() as int,
                0,
                start,
            ) && #[trigger] beam_outcome(
                f,
                q,
                self.rows(),
                layer_lists(self.links(), 0),
                seq![start],
                Self::search_width(self.spec_params(), k),
                out,
            ) && (never_nan(f) && out.len() > 0 ==> self.local_minimum(f, q, 0, out[0])) && if k <= out.len() {
                hits == out.take(k as int)
            } else {
                super::flat::exact_top_k(f, q, self.rows(), k as int, hits)
            }
    }

    /// Return the `k` nearest neighbors of `query` found by the HNSW
    /// traversal, sorted ascending by distance (closest first): a greedy
    /// descent from the entry point down to layer 1, then a beam search of
    /// width `max(ef_search, k)` on layer 0 from the node the descent
    /// reached. The hits are the first `k` of what that beam search returned
    /// ([`beam_outcome`]); when it returned fewer than `k` nodes, the hits are
    /// the exact `k` nearest of all stored vectors ([`HnswIndex::search_post`]).
    #[verifier::spinoff_prover]
    #[verifier::rlimit(40)]
    pub fn search<F: Fn(&[T], &[T]) -> u32>(&self, query: &[T], k: usize, dist: &F) -> (r: Result<
        Vec<SearchResult>,
        VexError,
    >)
        requires
            self.wf(),
            total_metric(*dist),
        ensures
            query@.len() != self.spec_dim() ==> r == Err::<Vec<SearchResult>, VexError>(
                VexError::DimensionMismatch { expected: self.spec_dim() as usize, got: query@.len() as usize },
            ),
            query@.len() == self.spec_dim() && self.rows().len() == 0 ==> r == Err::<
                Vec<SearchResult>,
                VexError,
            >(VexError::EmptyIndex),
            query@.len() == self.spec_dim() && self.rows().len() > 0 && k > self.rows().len() ==> r
                == Err::<Vec<SearchResult>, VexError>(
                VexError::NotEnoughPoints { requested: k, available: self.rows().len() as usize },
            ),
            query@.len() == self.spec_dim() && 0 < self.rows().len() && k <= self.rows().len() ==> r is Ok,
            r matches Ok(hits) ==> approximate_hits(*dist, query@, self.rows(), k as int, hits@),
            r matches Ok(hits) ==> hits@.len() == k && self.search_post(*dist, query@, k, hits@),
    {
        if query.len() != self.dim {
            return Err(VexError::DimensionMismatch { expected: self.dim, got: query.len() });
        }
        if self.n == 0 {
            return Err(VexError::EmptyIndex);
        }
        if k > self.n {
            return Err(VexError::NotEnoughPoints { requested: k, available: self.n });
        }
        let ep = self.entry_point.unwrap();
        let mut current = ep;
        let mut layer = self.max_level;
        while layer > 0
            invariant
                self.wf(),
                total_metric(*dist),
                current < self.n,
                self.levels@[current as int] >= layer,
                self.entry_point == Some(ep),
                layered_descent(*dist, query@, self.rows(), self.links(), ep, self.max_level as int, layer as int, current),
            decreases layer,
        {
            let c = self.greedy_search(query, current, layer, dist);
            proof {
                let p = choose|p: Seq<SearchResult>|
                    descent(*dist, query@, self.rows(), self.links(), layer as int, current, p) && p.last() == c && (p.len()
                        == 1 || crate::ieee::spec_lt(c.distance, p[0].distance));
                assert(descent(*dist, query@, self.rows(), self.links(), (layer - 1) + 1, current, p));
                assert(layered_descent(*dist, query@, self.rows(), self.links(), ep, self.max_level as int, (layer - 1) + 1, current));
                assert(local_min_in(*dist, query@, self.rows(), self.links(), (layer - 1) + 1, p.last()));
            }
            current = c.id;
            layer = layer - 1;
        }
        let ef = if self.params.ef_search < k { k } else { self.params.ef_search };
        let mut start: Vec<u64> = Vec::new();
        start.push(current);
        let candidates = self.search_layer(query, start.as_slice(), ef, 0, dist);
        if candidates.len() < k {
            let ds = self.measure_all(query, dist);
            let hits = select_top_k(ds.as_slice(), k);
            proof {
                assert(rows_measured(*dist, query@, self.rows(), ds@) && is_top_k(ds@, k as int, hits@));
                assert(super::flat::exact_top_k(*dist, query@, self.rows(), k as int, hits@));
                super::any::lemma_exact_is_approximate(*dist, query@, self.rows(), k as int, hits@);
                assert(start@ =~= seq![current]);
                assert(Self::beam_width(ef) == Self::search_width(self.params, k));
                assert(beam_outcome(
                    *dist,
                    query@,
                    self.rows(),
                    layer_lists(self.links(), 0),
                    seq![current],
                    Self::search_width(self.params, k),
                    candidates@,
                ));
                assert(self.spec_params() == self.params);
            }
            return Ok(hits);
        }
        let take = if k < candidates.len() { k } else { candidates.len() };
        let mut hits: Vec<SearchResult> = Vec::with_capacity(take);
        let mut j: usize = 0;
        while j < take
            invariant
                take <= candidates@.len(),
                j <= take,
                hits@ == candidates@.subrange(0, j as int),
            decreases take - j,
        {
            hits.push(candidates[j]);
            j = j + 1;
        }
        proof {
            assert forall|i: int| 0 <= i < hits@.len() implies (#[trigger] hits@[i]).id < self.rows().len()
                && measured(*dist, query@, self.rows()[hits@[i].id as int], hits@[i].distance) by {
                assert(hits@[i] == candidates@[i]);
                assert(self.reached(*dist, query@, start@, 0, candidates@[i]));
            }
            assert forall|a: int, b: int| 0 <= a < b < hits@.len() implies dist_key(#[trigger] hits@[a].distance)
                <= dist_key(#[trigger] hits@[b].distance) by {
                assert(hits@[a] == candidates@[a]);
                assert(hits@[b] == candidates@[b]);
            }
            assert forall|a: int, b: int| 0 <= a < b < hits@.len() implies #[trigger] hits@[a].id != #[trigger] hits@[b].id by {
                assert(hits@[a] == candidates@[a]);
                assert(hits@[b] == candidates@[b]);
            }
            if hits@.len() > 0 {
                assert(hits@[0] == candidates@[0]);
            }
            assert(hits@ =~= candidates@.take(take as int));
            assert(start@ =~= seq![current]);
            assert(Self::beam_width(ef) == Self::search_width(self.params, k));
            assert(beam_outcome(
                *dist,
                query@,
                self.rows(),
                layer_lists(self.links(), 0),
                seq![current],
                Self::search_width(self.params, k),
                candidates@,
            ));
            assert(hits@ == candidates@.take(k as int));
            assert(self.spec_params() == self.params);
        }
        Ok(hits)
    }

    /// Removing the candidate at `mi` (by swapping in the last one) keeps
    /// every other candidate.
    proof fn lemma_swap_remove_keeps(cands0: Seq<SearchResult>, mi: int, cands1: Seq<SearchResult>)
        requires
            0 <= mi < cands0.len(),
            cands1 == cands0.update(mi, cands0.last()).drop_last(),
        ensures
            forall|j: int| 0 <= j < cands1.len() ==> exists|i: int| 0 <= i < cands0.len() && #[trigger] cands1[j] == cands0[i],
            forall|x: int| #[trigger] super::topk::has_id(cands0, x) && x != cands0[mi].id ==> super::topk::has_id(cands1, x),
    {
        assert forall|j: int| 0 <= j < cands1.len() implies exists|i: int| 0 <= i < cands0.len() && #[trigger] cands1[j] == cands0[i] by {
            if j == mi {
                assert(cands1[j] == cands0[cands0.len() - 1]);
            } else {
                assert(cands1[j] == cands0[j]);
            }
        }
        assert forall|x: int| #[trigger] super::topk::has_id(cands0, x) && x != cands0[mi].id implies super::topk::has_id(cands1, x) by {
            let i = choose|i: int| 0 <= i < cands0.len() && cands0[i].id == x;
            if i == cands0.len() - 1 {
                assert(cands1[mi] == cands0[i]);
            } else {
                assert(cands1[i] == cands0[i]);
            }
        }
    }

    /// A newly visited node that was pushed as a candidate and inserted
    /// into the results keeps the beam bookkeeping.
    #[verifier::spinoff_prover]
    #[verifier::rlimit(30)]
    proof fn lemma_beam_visit_pushed<F: Fn(&[T], &[T]) -> u32>(
        &self,
        f: F,
        q: Seq<T>,
        entries: Seq<u64>,
        layer: int,
        expanded: Set<u64>,
        current: Option<u64>,
        v0: Set<u64>,
        d0: Map<u64, u32>,
        cands0: Seq<SearchResult>,
        res0: Seq<SearchResult>,
        c: SearchResult,
        p: int,
        v1: Set<u64>,
        d1: Map<u64, u32>,
        cands1: Seq<SearchResult>,
        res1: Seq<SearchResult>,
    )
        requires
            self.beam_ok(f, q, entries, layer, v0, d0, expanded, cands0, res0, current),
            self.reached(f, q, entries, layer, c),
            !v0.contains(c.id),
            current != Some(c.id),
            v1 == v0.insert(c.id),
            d1 == d0.insert(c.id, c.distance),
            cands1 == cands0.push(c),
            0 <= p <= res0.len(),
            res1 == res0.insert(p, c),
            sorted_by_distance(res1),
            forall|j: int| 0 <= j < p ==> dist_key(#[trigger] res0[j].distance) <= dist_key(c.distance),
            forall|j: int| p <= j < res0.len() ==> dist_key(#[trigger] res0[j].distance) > dist_key(c.distance),
        ensures
            self.beam_ok(f, q, entries, layer, v1, d1, expanded, cands1, res1, current),
            res1.len() == res0.len() + 1,
    {
        lemma_bounded_set_len(v1, self.n as nat);
        res0.insert_ensures(p, c);
        assert(d1.dom() =~= v1);
        assert forall|j: int| 0 <= j < cands1.len() implies self.reached(f, q, entries, layer, #[trigger] cands1[j])
            && v1.contains(cands1[j].id) && d1[cands1[j].id] == cands1[j].distance by {
            if j < cands0.len() {
                assert(cands1[j] == cands0[j]);
                assert(v0.contains(cands0[j].id));
            }
        }
        assert forall|a: int, b: int| 0 <= a < b < res1.len() implies #[trigger] res1[a].id != #[trigger] res1[b].id by {
            if a < p && b < p {
            } else if a < p && b == p {
                assert(v0.contains(res0[a].id));
            } else if a < p {
                assert(res1[b] == res0[b - 1]);
            } else if a == p {
                assert(res1[b] == res0[b - 1]);
                assert(v0.contains(res0[b - 1].id));
            } else {
                assert(res1[a] == res0[a - 1]);
                assert(res1[b] == res0[b - 1]);
            }
        }
        assert forall|j: int| 0 <= j < res1.len() implies self.reached(f, q, entries, layer, #[trigger] res1[j])
            && v1.contains(res1[j].id) && d1[res1[j].id] == res1[j].distance by {
            if j < p {
                assert(res1[j] == res0[j]);
                assert(v0.contains(res0[j].id));
            } else if j > p {
                assert(res1[j] == res0[j - 1]);
                assert(v0.contains(res0[j - 1].id));
            }
        }
        if never_nan(f) {
            assert forall|x: u64| #[trigger] v1.contains(x) implies !crate::ieee::spec_is_nan(d1[x]) by {
                if x == c.id {
                    let (a, b) = choose|a: &[T], b: &[T]| a@ == q && b@ == self.rows()[c.id as int] && call_ensures(
                        f,
                        (a, b),
                        c.distance,
                    );
                    assert(call_ensures(f, (a, b), c.distance));
                }
            }
            assert forall|x: u64| #[trigger] v1.contains(x) implies dist_key(d1[x]) >= dist_key(res1[0].distance) by {
                if x != c.id {
                    assert(v0.contains(x));
                    assert(res0.len() > 0);
                    if p == 0 {
                        assert(dist_key(res0[0].distance) > dist_key(c.distance));
                    } else {
                        assert(res1[0] == res0[0]);
                    }
                } else if p > 0 {
                    assert(res1[0] == res0[0]);
                }
            }
            assert forall|j: int| 0 <= j < res1.len() implies expanded.contains(#[trigger] res1[j].id)
                || super::topk::has_id(cands1, res1[j].id as int) || current == Some(res1[j].id) by {
                if j == p {
                    assert(cands1[cands0.len() as int] == c);
                } else {
                    let r = if j < p { res1[j] } else { res1[j] };
                    let i = if j < p { j } else { j - 1 };
                    assert(res1[j] == res0[i]);
                    assert(expanded.contains(res0[i].id) || super::topk::has_id(cands0, res0[i].id as int) || current
                        == Some(res0[i].id));
                    if super::topk::has_id(cands0, res0[i].id as int) {
                        let k = choose|k: int| 0 <= k < cands0.len() && cands0[k].id == res0[i].id as int;
                        assert(cands1[k] == cands0[k]);
                    }
                }
            }
        }
    }

    /// A newly visited node that was measured but not kept keeps the beam
    /// bookkeeping when it is no closer than the last result.
    #[verifier::spinoff_prover]
    #[verifier::rlimit(30)]
    proof fn lemma_beam_visit_skipped<F: Fn(&[T], &[T]) -> u32>(
        &self,
        f: F,
        q: Seq<T>,
        entries: Seq<u64>,
        layer: int,
        expanded: Set<u64>,
        current: Option<u64>,
        cands: Seq<SearchResult>,
        results: Seq<SearchResult>,
        v0: Set<u64>,
        d0: Map<u64, u32>,
        c: SearchResult,
        v1: Set<u64>,
        d1: Map<u64, u32>,
    )
        requires
            self.beam_ok(f, q, entries, layer, v0, d0, expanded, cands, results, current),
            c.id < self.n,
            measured(f, q, self.rows()[c.id as int], c.distance),
            !v0.contains(c.id),
            v1 == v0.insert(c.id),
            d1 == d0.insert(c.id, c.distance),
            results.len() > 0,
            !crate::ieee::spec_lt(c.distance, results.last().distance),
        ensures
            self.beam_ok(f, q, entries, layer, v1, d1, expanded, cands, results, current),
    {
        lemma_bounded_set_len(v1, self.n as nat);
        assert(d1.dom() =~= v1);
        assert forall|j: int| 0 <= j < cands.len() implies self.reached(f, q, entries, layer, #[trigger] cands[j])
            && v1.contains(cands[j].id) && d1[cands[j].id] == cands[j].distance by {
            assert(v0.contains(cands[j].id));
        }
        assert forall|j: int| 0 <= j < results.len() implies self.reached(f, q, entries, layer, #[trigger] results[j])
            && v1.contains(results[j].id) && d1[results[j].id] == results[j].distance by {
            assert(v0.contains(results[j].id));
        }
        if never_nan(f) {
            let (a, b) = choose|a: &[T], b: &[T]| a@ == q && b@ == self.rows()[c.id as int] && call_ensures(
                f,
                (a, b),
                c.distance,
            );
            assert(call_ensures(f, (a, b), c.distance));
            let last = results.len() - 1;
            assert(v0.contains(results[last].id));
            assert(dist_key(results[0].distance) <= dist_key(results[last].distance));
            assert forall|x: u64| #[trigger] v1.contains(x) implies !crate::ieee::spec_is_nan(d1[x]) && dist_key(d1[x])
                >= dist_key(results[0].distance) by {
                if x != c.id {
                    assert(v0.contains(x));
                }
            }
        }
    }

    /// Dropping the last of at least two results keeps the beam bookkeeping.
    proof fn lemma_beam_drop_last<F: Fn(&[T], &[T]) -> u32>(
        &self,
        f: F,
        q: Seq<T>,
        entries: Seq<u64>,
        layer: int,
        visited: Set<u64>,
        dmap: Map<u64, u32>,
        expanded: Set<u64>,
        cands: Seq<SearchResult>,
        current: Option<u64>,
        full: Seq<SearchResult>,
        results: Seq<SearchResult>,
    )
        requires
            self.beam_ok(f, q, entries, layer, visited, dmap, expanded, cands, full, current),
            full.len() >= 2,
            results == full.drop_last(),
        ensures
            self.beam_ok(f, q, entries, layer, visited, dmap, expanded, cands, results, current),
    {
        assert forall|j: int| 0 <= j < results.len() implies self.reached(f, q, entries, layer, #[trigger] results[j])
            && visited.contains(results[j].id) && dmap[results[j].id] == results[j].distance by {
            assert(results[j] == full[j]);
        }
        assert(results[0] == full[0]);
        if never_nan(f) {
            assert forall|j: int| 0 <= j < results.len() implies expanded.contains(#[trigger] results[j].id)
                || super::topk::has_id(cands, results[j].id as int) || current == Some(results[j].id) by {
                assert(results[j] == full[j]);
            }
        }
        assert forall|a: int, b: int| 0 <= a < b < results.len() implies #[trigger] results[a].id != #[trigger] results[b].id by {
            assert(results[a] == full[a]);
            assert(results[b] == full[b]);
        }
    }

    /// Taking the closest candidate out of the candidates keeps the beam
    /// bookkeeping, with it as the node being expanded.
    #[verifier::spinoff_prover]
    #[verifier::rlimit(30)]
    proof fn lemma_beam_pop<F: Fn(&[T], &[T]) -> u32>(
        &self,
        f: F,
        q: Seq<T>,
        entries: Seq<u64>,
        layer: int,
        visited: Set<u64>,
        dmap: Map<u64, u32>,
        expanded: Set<u64>,
        cands0: Seq<SearchResult>,
        mi: int,
        cands1: Seq<SearchResult>,
        results: Seq<SearchResult>,
    )
        requires
            self.beam_ok(f, q, entries, layer, visited, dmap, expanded, cands0, results, None),
            0 <= mi < cands0.len(),
            cands1 == cands0.update(mi, cands0.last()).drop_last(),
        ensures
            self.beam_ok(f, q, entries, layer, visited, dmap, expanded, cands1, results, Some(cands0[mi].id)),
            self.reached(f, q, entries, layer, cands0[mi]),
            visited.contains(cands0[mi].id),
            results.len() > 0,
    {
        Self::lemma_swap_remove_keeps(cands0, mi, cands1);
        assert(self.reached(f, q, entries, layer, cands0[mi]));
        assert forall|j: int| 0 <= j < cands1.len() implies self.reached(f, q, entries, layer, #[trigger] cands1[j])
            && visited.contains(cands1[j].id) && dmap[cands1[j].id] == cands1[j].distance by {
            let i = choose|i: int| 0 <= i < cands0.len() && #[trigger] cands1[j] == cands0[i];
        }
        if results.len() == 0 {
            assert(visited.contains(cands0[mi].id));
            assert(false);
        }
        if never_nan(f) {
            assert forall|j: int| 0 <= j < results.len() implies expanded.contains(#[trigger] results[j].id)
                || super::topk::has_id(cands1, results[j].id as int) || Some(cands0[mi].id) == Some(results[j].id) by {
                if super::topk::has_id(cands0, results[j].id as int) && results[j].id != cands0[mi].id {
                    assert(super::topk::has_id(cands1, results[j].id as int));
                }
            }
        }
    }

    /// When the closest candidate is farther than the last result, the
    /// search stops; the first result has then been expanded.
    #[verifier::spinoff_prover]
    #[verifier::rlimit(30)]
    proof fn lemma_beam_stop<F: Fn(&[T], &[T]) -> u32>(
        &self,
        f: F,
        q: Seq<T>,
        entries: Seq<u64>,
        layer: int,
        visited: Set<u64>,
        dmap: Map<u64, u32>,
        expanded: Set<u64>,
        cands0: Seq<SearchResult>,
        mi: int,
        cands1: Seq<SearchResult>,
        results: Seq<SearchResult>,
    )
        requires
            self.beam_ok(f, q, entries, layer, visited, dmap, expanded, cands0, results, None),
            0 <= mi < cands0.len(),
            forall|j: int| 0 <= j < cands0.len() ==> dist_key(cands0[mi].distance) <= dist_key(#[trigger] cands0[j].distance),
            cands1 == cands0.update(mi, cands0.last()).drop_last(),
            results.len() > 0,
            crate::ieee::spec_lt(results.last().distance, cands0[mi].distance),
        ensures
            self.beam_ok(f, q, entries, layer, visited, dmap, expanded, cands1, results, None),
            never_nan(f) ==> expanded.contains(results[0].id),
    {
        self.lemma_beam_pop(f, q, entries, layer, visited, dmap, expanded, cands0, mi, cands1, results);
        let c = cands0[mi];
        let last = results.len() - 1;
        assert forall|j: int| 0 <= j < results.len() implies (#[trigger] results[j]).id != c.id by {
            assert(dist_key(results[j].distance) <= dist_key(results[last].distance));
            if results[j].id == c.id {
                assert(dmap[c.id] == c.distance);
            }
        }
        if never_nan(f) {
            assert forall|j: int| 0 <= j < results.len() implies expanded.contains(#[trigger] results[j].id)
                || super::topk::has_id(cands1, results[j].id as int) || None::<u64> == Some(results[j].id) by {
                assert(results[j].id != c.id);
            }
            let r0 = results[0];
            assert(r0.id != c.id);
            if super::topk::has_id(cands1, r0.id as int) {
                let k = choose|k: int| 0 <= k < cands1.len() && cands1[k].id == r0.id as int;
                let i = choose|i: int| 0 <= i < cands0.len() && #[trigger] cands1[k] == cands0[i];
                assert(dmap[r0.id] == cands0[i].distance);
                assert(dist_key(r0.distance) <= dist_key(results[last].distance));
                assert(false);
            }
        }
    }

    /// Once every neighbor of the node being expanded was visited, it joins
    /// the expanded nodes.
    proof fn lemma_beam_expanded<F: Fn(&[T], &[T]) -> u32>(
        &self,
        f: F,
        q: Seq<T>,
        entries: Seq<u64>,
        layer: int,
        visited: Set<u64>,
        dmap: Map<u64, u32>,
        expanded: Set<u64>,
        cands: Seq<SearchResult>,
        results: Seq<SearchResult>,
        cur: u64,
    )
        requires
            self.beam_ok(f, q, entries, layer, visited, dmap, expanded, cands, results, Some(cur)),
            visited.contains(cur),
            self.levels@[cur as int] >= layer,
            forall|j: int| 0 <= j < self.links()[cur as int][layer].len() ==> visited.contains(#[trigger] self.links()[cur as int][layer][j]),
        ensures
            self.beam_ok(f, q, entries, layer, visited, dmap, expanded.insert(cur), cands, results, None),
    {
        let ex = expanded.insert(cur);
        assert forall|e: u64, j: int|
            ex.contains(e) && 0 <= j < self.links()[e as int][layer].len() implies visited.contains(
                #[trigger] self.links()[e as int][layer][j],
            ) by {
            if e != cur {
                assert(expanded.contains(e));
            }
        }
    }

    /// When the search ends, the first result is a local minimum of the
    /// layer: it has been expanded, so all its neighbors were measured, and
    /// none of them was closer.
    proof fn lemma_beam_first_is_local_minimum<F: Fn(&[T], &[T]) -> u32>(
        &self,
        f: F,
        q: Seq<T>,
        entries: Seq<u64>,
        layer: int,
        visited: Set<u64>,
        dmap: Map<u64, u32>,
        expanded: Set<u64>,
        cands: Seq<SearchResult>,
        results: Seq<SearchResult>,
    )
        requires
            self.beam_ok(f, q, entries, layer, visited, dmap, expanded, cands, results, None),
            never_nan(f),
            results.len() > 0,
            cands.len() == 0 || expanded.contains(results[0].id),
        ensures
            self.local_minimum(f, q, layer, results[0]),
    {
        let r0 = results[0];
        if cands.len() == 0 {
            assert(expanded.contains(r0.id) || super::topk::has_id(cands, r0.id as int) || None::<u64> == Some(r0.id));
        }
        assert(expanded.contains(r0.id));
        assert forall|j: int| 0 <= j < self.links()[r0.id as int][layer].len() implies no_closer(
            f,
            q,
            self.rows()[#[trigger] self.links()[r0.id as int][layer][j] as int],
            r0.distance,
        ) by {
            let x = self.links()[r0.id as int][layer][j];
            assert(visited.contains(x));
            assert(measured(f, q, self.rows()[x as int], dmap[x]));
            assert(!crate::ieee::spec_lt(dmap[x], r0.distance));
        }
    }
}

impl<T: Copy> HnswIndex<T> {
    /// A newly visited node, pushed as a candidate and inserted into the
    /// results, keeps the extra bookkeeping: it is reachable, and it was kept
    /// because there was room or it beats the last result.
    #[verifier::spinoff_prover]
    #[verifier::rlimit(30)]
    proof fn lemma_more_pushed<F: Fn(&[T], &[T]) -> u32>(
        &self,
        f: F,
        q: Seq<T>,
        entries: Seq<u64>,
        layer: int,
        width: int,
        expanded: Set<u64>,
        current: Option<u64>,
        v0: Set<u64>,
        d0: Map<u64, u32>,
        cands0: Seq<SearchResult>,
        res0: Seq<SearchResult>,
        c: SearchResult,
        p: int,
        v1: Set<u64>,
        d1: Map<u64, u32>,
        cands1: Seq<SearchResult>,
        res1: Seq<SearchResult>,
    )
        requires
            self.beam_ok(f, q, entries, layer, v0, d0, expanded, cands0, res0, current),
            self.beam_more(f, entries, layer, width, v0, d0, expanded, cands0, res0, current),
            reachable(layer_lists(self.links(), layer), entries, c.id),
            !v0.contains(c.id),
            v1 == v0.insert(c.id),
            d1 == d0.insert(c.id, c.distance),
            cands1 == cands0.push(c),
            0 <= p <= res0.len(),
            res1 == res0.insert(p, c),
            forall|j: int| 0 <= j < p ==> dist_key(#[trigger] res0[j].distance) <= dist_key(c.distance),
            forall|j: int| p <= j < res0.len() ==> dist_key(#[trigger] res0[j].distance) > dist_key(c.distance),
            res0.len() == 0 || crate::ieee::spec_lt(c.distance, res0.last().distance) || res0.len() < width || (forall|x: u64|
                #[trigger] v0.contains(x) ==> super::topk::has_id(res0, x as int)),
        ensures
            self.beam_more(f, entries, layer, width, v1, d1, expanded, cands1, res1, current),
    {
        reveal(HnswIndex::beam_more);
        res0.insert_ensures(p, c);
        assert forall|x: int| #[trigger] super::topk::has_id(res0, x) implies super::topk::has_id(res1, x) by {
            let j = choose|j: int| 0 <= j < res0.len() && res0[j].id == x;
            if j < p {
                assert(res1[j] == res0[j]);
            } else {
                assert(res1[j + 1] == res0[j]);
            }
        }
        assert(res1[p] == c);
        assert(super::topk::has_id(res1, c.id as int));
        assert forall|x: int| #[trigger] super::topk::has_id(cands0, x) implies super::topk::has_id(cands1, x) by {
            let j = choose|j: int| 0 <= j < cands0.len() && cands0[j].id == x;
            assert(cands1[j] == cands0[j]);
        }
        assert(cands1[cands0.len() as int] == c);
        assert(super::topk::has_id(cands1, c.id as int));
        if never_nan(f) {
            assert forall|x: u64| #[trigger] v1.contains(x) && !super::topk::has_id(res1, x as int) implies dist_key(d1[x])
                >= dist_key(res1.last().distance) by {
                assert(x != c.id);
                assert(v0.contains(x));
                assert(!super::topk::has_id(res0, x as int));
                assert(res0.len() >= width);
                assert(res0.len() > 0);
                assert(dist_key(c.distance) < dist_key(res0.last().distance));
                if p == res0.len() {
                    assert(dist_key(res0[res0.len() - 1].distance) <= dist_key(c.distance));
                }
                assert(res1.last() == res0.last());
            }
        }
    }

    /// A newly visited node that was not kept keeps the extra bookkeeping:
    /// the results were full and it does not beat the last of them.
    #[verifier::spinoff_prover]
    #[verifier::rlimit(30)]
    proof fn lemma_more_skipped<F: Fn(&[T], &[T]) -> u32>(
        &self,
        f: F,
        q: Seq<T>,
        entries: Seq<u64>,
        layer: int,
        width: int,
        expanded: Set<u64>,
        current: Option<u64>,
        cands: Seq<SearchResult>,
        results: Seq<SearchResult>,
        v0: Set<u64>,
        d0: Map<u64, u32>,
        c: SearchResult,
        v1: Set<u64>,
        d1: Map<u64, u32>,
    )
        requires
            self.beam_ok(f, q, entries, layer, v0, d0, expanded, cands, results, current),
            self.beam_more(f, entries, layer, width, v0, d0, expanded, cands, results, current),
            reachable(layer_lists(self.links(), layer), entries, c.id),
            c.id < self.n,
            measured(f, q, self.rows()[c.id as int], c.distance),
            !v0.contains(c.id),
            v1 == v0.insert(c.id),
            d1 == d0.insert(c.id, c.distance),
            results.len() >= width,
            !crate::ieee::spec_lt(c.distance, results.last().distance),
        ensures
            self.beam_more(f, entries, layer, width, v1, d1, expanded, cands, results, current),
    {
        reveal(HnswIndex::beam_more);
        if never_nan(f) {
            let (a, b) = choose|a: &[T], b: &[T]| a@ == q && b@ == self.rows()[c.id as int] && call_ensures(
                f,
                (a, b),
                c.distance,
            );
            assert(call_ensures(f, (a, b), c.distance));
            let last = results.len() - 1;
            assert(v0.contains(results[last].id));
            assert(!crate::ieee::spec_is_nan(d0[results[last].id]));
        }
    }

    /// Dropping the last of more than `width` results keeps the extra
    /// bookkeeping.
    #[verifier::spinoff_prover]
    proof fn lemma_more_drop_last<F: Fn(&[T], &[T]) -> u32>(
        &self,
        f: F,
        q: Seq<T>,
        entries: Seq<u64>,
        layer: int,
        width: int,
        visited: Set<u64>,
        dmap: Map<u64, u32>,
        expanded: Set<u64>,
        cands: Seq<SearchResult>,
        current: Option<u64>,
        full: Seq<SearchResult>,
        results: Seq<SearchResult>,
    )
        requires
            self.beam_ok(f, q, entries, layer, visited, dmap, expanded, cands, full, current),
            self.beam_more(f, entries, layer, width, visited, dmap, expanded, cands, full, current),
            full.len() > width,
            results == full.drop_last(),
        ensures
            self.beam_more(f, entries, layer, width, visited, dmap, expanded, cands, results, current),
    {
        reveal(HnswIndex::beam_more);
        if never_nan(f) {
            let last = full.len() - 1;
            assert(results.last() == full[last - 1]);
            assert forall|x: u64| #[trigger] visited.contains(x) && !super::topk::has_id(results, x as int) implies dist_key(
                dmap[x],
            ) >= dist_key(results.last().distance) by {
                assert(dist_key(full[last - 1].distance) <= dist_key(full[last].distance));
                if super::topk::has_id(full, x as int) {
                    let j = choose|j: int| 0 <= j < full.len() && full[j].id == x as int;
                    if j < last {
                        assert(results[j] == full[j]);
                        assert(false);
                    }
                    assert(dmap[x] == full[j].distance);
                }
            }
        }
    }

    /// Taking a candidate out to expand it keeps the extra bookkeeping.
    proof fn lemma_more_pop<F: Fn(&[T], &[T]) -> u32>(
        &self,
        f: F,
        entries: Seq<u64>,
        layer: int,
        width: int,
        visited: Set<u64>,
        dmap: Map<u64, u32>,
        expanded: Set<u64>,
        cands0: Seq<SearchResult>,
        mi: int,
        cands1: Seq<SearchResult>,
        results: Seq<SearchResult>,
    )
        requires
            self.beam_more(f, entries, layer, width, visited, dmap, expanded, cands0, results, None),
            0 <= mi < cands0.len(),
            cands1 == cands0.update(mi, cands0.last()).drop_last(),
        ensures
            self.beam_more(f, entries, layer, width, visited, dmap, expanded, cands1, results, Some(cands0[mi].id)),
            visited.contains(cands0[mi].id) ==> reachable(layer_lists(self.links(), layer), entries, cands0[mi].id),
    {
        reveal(HnswIndex::beam_more);
        Self::lemma_swap_remove_keeps(cands0, mi, cands1);
        if results.len() < width {
            assert forall|x: u64| #[trigger] visited.contains(x) implies expanded.contains(x) || super::topk::has_id(
                cands1,
                x as int,
            ) || Some(cands0[mi].id) == Some(x) by {
                if super::topk::has_id(cands0, x as int) && x != cands0[mi].id {
                    assert(super::topk::has_id(cands1, x as int));
                }
            }
        }
    }

    /// Stopping with `width` or more results keeps the extra bookkeeping.
    proof fn lemma_more_stop<F: Fn(&[T], &[T]) -> u32>(
        &self,
        f: F,
        entries: Seq<u64>,
        layer: int,
        width: int,
        visited: Set<u64>,
        dmap: Map<u64, u32>,
        expanded: Set<u64>,
        cands0: Seq<SearchResult>,
        cands1: Seq<SearchResult>,
        results: Seq<SearchResult>,
    )
        requires
            self.beam_more(f, entries, layer, width, visited, dmap, expanded, cands0, results, None),
            results.len() >= width,
        ensures
            self.beam_more(f, entries, layer, width, visited, dmap, expanded, cands1, results, None),
    {
        reveal(HnswIndex::beam_more);
    }

    /// Expanding the current node keeps the extra bookkeeping.
    proof fn lemma_more_expanded<F: Fn(&[T], &[T]) -> u32>(
        &self,
        f: F,
        entries: Seq<u64>,
        layer: int,
        width: int,
        visited: Set<u64>,
        dmap: Map<u64, u32>,
        expanded: Set<u64>,
        cands: Seq<SearchResult>,
        results: Seq<SearchResult>,
        cur: u64,
    )
        requires
            self.beam_more(f, entries, layer, width, visited, dmap, expanded, cands, results, Some(cur)),
        ensures
            self.beam_more(f, entries, layer, width, visited, dmap, expanded.insert(cur), cands, results, None),
    {
        reveal(HnswIndex::beam_more);
    }

    /// A beam search that ran out of candidates before keeping `width`
    /// results expanded every visited node, so no list leads out of them.
    #[verifier::spinoff_prover]
    proof fn lemma_more_closed<F: Fn(&[T], &[T]) -> u32>(
        &self,
        f: F,
        q: Seq<T>,
        entries: Seq<u64>,
        layer: int,
        width: int,
        visited: Set<u64>,
        dmap: Map<u64, u32>,
        expanded: Set<u64>,
        cands: Seq<SearchResult>,
        results: Seq<SearchResult>,
    )
        requires
            self.navigable(),
            self.beam_ok(f, q, entries, layer, visited, dmap, expanded, cands, results, None),
            self.beam_more(f, entries, layer, width, visited, dmap, expanded, cands, results, None),
            0 <= layer,
            cands.len() == 0,
            results.len() < width,
        ensures
            closed_on(layer_lists(self.links(), layer), visited),
    {
        reveal(HnswIndex::beam_more);
        let lay = layer_lists(self.links(), layer);
        assert forall|x: u64, j: int|
            visited.contains(x) && 0 <= x < lay.len() && 0 <= j < lay[x as int].len() implies visited.contains(
            #[trigger] lay[x as int][j],
        ) by {
            assert(expanded.contains(x) || super::topk::has_id(cands, x as int) || None::<u64> == Some(x));
            assert(expanded.contains(x));
            assert(self.links()[x as int].len() == self.levels@[x as int] + 1);
            assert(lay[x as int] == self.links()[x as int][layer]);
        }
    }

    /// At the end of a beam search, the results are what a beam search of
    /// width `width`, or of their own length when that is larger, returns.
    #[verifier::spinoff_prover]
    #[verifier::rlimit(30)]
    proof fn lemma_more_measured<F: Fn(&[T], &[T]) -> u32>(
        &self,
        f: F,
        q: Seq<T>,
        entries: Seq<u64>,
        layer: int,
        width: int,
        visited: Set<u64>,
        dmap: Map<u64, u32>,
        expanded: Set<u64>,
        cands: Seq<SearchResult>,
        results: Seq<SearchResult>,
    )
        requires
            self.beam_ok(f, q, entries, layer, visited, dmap, expanded, cands, results, None),
            self.beam_more(f, entries, layer, width, visited, dmap, expanded, cands, results, None),
            forall|i: int| 0 <= i < entries.len() ==> visited.contains(#[trigger] entries[i]),
            results.len() < width ==> closed_on(layer_lists(self.links(), layer), visited),
            never_nan(f) && results.len() > 0 ==> expanded_before(
                layer_lists(self.links(), layer),
                visited,
                dmap,
                results.last().distance,
            ),
        ensures
            beam_measured(
                f,
                q,
                self.rows(),
                layer_lists(self.links(), layer),
                entries,
                if results.len() <= width { width } else { results.len() as int },
                results,
                visited,
                dmap,
            ),
    {
        reveal(HnswIndex::beam_more);
    }
}

impl<T: Copy> HnswIndex<T> {
    /// The front holds before anything is visited.
    proof fn lemma_front_empty<F: Fn(&[T], &[T]) -> u32>(&self, f: F, expanded: Set<u64>, cands: Seq<SearchResult>)
        ensures
            self.beam_front(f, Set::empty(), Map::empty(), expanded, cands, Seq::empty(), None),
    {
        reveal(HnswIndex::beam_front);
    }

    /// A node pushed as a candidate keeps the front.
    #[verifier::spinoff_prover]
    #[verifier::rlimit(30)]
    proof fn lemma_front_pushed<F: Fn(&[T], &[T]) -> u32>(
        &self,
        f: F,
        q: Seq<T>,
        entries: Seq<u64>,
        layer: int,
        width: int,
        expanded: Set<u64>,
        current: Option<u64>,
        v0: Set<u64>,
        d0: Map<u64, u32>,
        cands0: Seq<SearchResult>,
        res0: Seq<SearchResult>,
        c: SearchResult,
        p: int,
        v1: Set<u64>,
        d1: Map<u64, u32>,
        cands1: Seq<SearchResult>,
        res1: Seq<SearchResult>,
    )
        requires
            self.beam_ok(f, q, entries, layer, v0, d0, expanded, cands0, res0, current),
            self.beam_more(f, entries, layer, width, v0, d0, expanded, cands0, res0, current),
            self.beam_front(f, v0, d0, expanded, cands0, res0, current),
            !v0.contains(c.id),
            v1 == v0.insert(c.id),
            d1 == d0.insert(c.id, c.distance),
            cands1 == cands0.push(c),
            0 <= p <= res0.len(),
            res1 == res0.insert(p, c),
            forall|j: int| 0 <= j < p ==> dist_key(#[trigger] res0[j].distance) <= dist_key(c.distance),
            forall|j: int| p <= j < res0.len() ==> dist_key(#[trigger] res0[j].distance) > dist_key(c.distance),
            res0.len() == 0 || crate::ieee::spec_lt(c.distance, res0.last().distance) || res0.len() < width || (forall|x: u64|
                #[trigger] v0.contains(x) ==> super::topk::has_id(res0, x as int)),
        ensures
            self.beam_front(f, v1, d1, expanded, cands1, res1, current),
    {
        reveal(HnswIndex::beam_front);
        reveal(HnswIndex::beam_more);
        res0.insert_ensures(p, c);
        assert(cands1[cands0.len() as int] == c);
        assert forall|x: int| #[trigger] super::topk::has_id(cands0, x) implies super::topk::has_id(cands1, x) by {
            let j = choose|j: int| 0 <= j < cands0.len() && cands0[j].id == x;
            assert(cands1[j] == cands0[j]);
        }
        if never_nan(f) && res1.len() > 0 {
            assert forall|x: u64| #[trigger] v1.contains(x) && dist_key(d1[x]) < dist_key(res1.last().distance) implies expanded.contains(x)
                || super::topk::has_id(cands1, x as int) || current == Some(x) by {
                if x == c.id {
                    assert(super::topk::has_id(cands1, x as int));
                } else {
                    assert(v0.contains(x));
                    if super::topk::has_id(res0, x as int) {
                        let j = choose|j: int| 0 <= j < res0.len() && res0[j].id == x as int;
                        assert(expanded.contains(res0[j].id) || super::topk::has_id(cands0, res0[j].id as int) || current
                            == Some(res0[j].id));
                    } else {
                        assert(res0.len() >= width);
                        assert(res0.len() > 0);
                        assert(dist_key(c.distance) < dist_key(res0.last().distance));
                        if p == res0.len() {
                            assert(dist_key(res0[res0.len() - 1].distance) <= dist_key(c.distance));
                        }
                        assert(res1.last() == res0.last());
                    }
                }
            }
        }
    }

    /// A node measured but not kept keeps the front: it ranks no earlier than
    /// the last result.
    #[verifier::spinoff_prover]
    #[verifier::rlimit(30)]
    proof fn lemma_front_skipped<F: Fn(&[T], &[T]) -> u32>(
        &self,
        f: F,
        q: Seq<T>,
        entries: Seq<u64>,
        layer: int,
        expanded: Set<u64>,
        current: Option<u64>,
        cands: Seq<SearchResult>,
        results: Seq<SearchResult>,
        v0: Set<u64>,
        d0: Map<u64, u32>,
        c: SearchResult,
        v1: Set<u64>,
        d1: Map<u64, u32>,
    )
        requires
            self.beam_ok(f, q, entries, layer, v0, d0, expanded, cands, results, current),
            self.beam_front(f, v0, d0, expanded, cands, results, current),
            c.id < self.n,
            measured(f, q, self.rows()[c.id as int], c.distance),
            !v0.contains(c.id),
            v1 == v0.insert(c.id),
            d1 == d0.insert(c.id, c.distance),
            results.len() > 0,
            !crate::ieee::spec_lt(c.distance, results.last().distance),
        ensures
            self.beam_front(f, v1, d1, expanded, cands, results, current),
    {
        reveal(HnswIndex::beam_front);
        if never_nan(f) {
            let (a, b) = choose|a: &[T], b: &[T]| a@ == q && b@ == self.rows()[c.id as int] && call_ensures(
                f,
                (a, b),
                c.distance,
            );
            assert(call_ensures(f, (a, b), c.distance));
            let last = results.len() - 1;
            assert(v0.contains(results[last].id));
            assert(!crate::ieee::spec_is_nan(d0[results[last].id]));
        }
    }

    /// Dropping the last result keeps the front.
    #[verifier::spinoff_prover]
    proof fn lemma_front_drop_last<F: Fn(&[T], &[T]) -> u32>(
        &self,
        f: F,
        q: Seq<T>,
        entries: Seq<u64>,
        layer: int,
        visited: Set<u64>,
        dmap: Map<u64, u32>,
        expanded: Set<u64>,
        cands: Seq<SearchResult>,
        current: Option<u64>,
        full: Seq<SearchResult>,
        results: Seq<SearchResult>,
    )
        requires
            self.beam_ok(f, q, entries, layer, visited, dmap, expanded, cands, full, current),
            self.beam_front(f, visited, dmap, expanded, cands, full, current),
            full.len() >= 2,
            results == full.drop_last(),
        ensures
            self.beam_front(f, visited, dmap, expanded, cands, results, current),
    {
        reveal(HnswIndex::beam_front);
        let last = full.len() - 1;
        assert(results.last() == full[last - 1]);
        assert(dist_key(full[last - 1].distance) <= dist_key(full[last].distance));
    }

    /// Taking a candidate out to expand it keeps the front.
    proof fn lemma_front_pop<F: Fn(&[T], &[T]) -> u32>(
        &self,
        f: F,
        visited: Set<u64>,
        dmap: Map<u64, u32>,
        expanded: Set<u64>,
        cands0: Seq<SearchResult>,
        mi: int,
        cands1: Seq<SearchResult>,
        results: Seq<SearchResult>,
    )
        requires
            self.beam_front(f, visited, dmap, expanded, cands0, results, None),
            0 <= mi < cands0.len(),
            cands1 == cands0.update(mi, cands0.last()).drop_last(),
        ensures
            self.beam_front(f, visited, dmap, expanded, cands1, results, Some(cands0[mi].id)),
    {
        reveal(HnswIndex::beam_front);
        Self::lemma_swap_remove_keeps(cands0, mi, cands1);
    }

    /// Stopping when the nearest candidate ranks after the last result keeps
    /// the front, with every remaining candidate ranking after the last
    /// result.
    #[verifier::spinoff_prover]
    #[verifier::rlimit(30)]
    proof fn lemma_front_stop<F: Fn(&[T], &[T]) -> u32>(
        &self,
        f: F,
        q: Seq<T>,
        entries: Seq<u64>,
        layer: int,
        visited: Set<u64>,
        dmap: Map<u64, u32>,
        expanded: Set<u64>,
        cands0: Seq<SearchResult>,
        mi: int,
        cands1: Seq<SearchResult>,
        results: Seq<SearchResult>,
    )
        requires
            self.beam_ok(f, q, entries, layer, visited, dmap, expanded, cands0, results, None),
            self.beam_front(f, visited, dmap, expanded, cands0, results, None),
            0 <= mi < cands0.len(),
            forall|j: int| 0 <= j < cands0.len() ==> dist_key(cands0[mi].distance) <= dist_key(#[trigger] cands0[j].distance),
            cands1 == cands0.update(mi, cands0.last()).drop_last(),
            results.len() > 0,
            crate::ieee::spec_lt(results.last().distance, cands0[mi].distance),
        ensures
            self.beam_front(f, visited, dmap, expanded, cands1, results, None),
            Self::beyond_last(cands1, results),
    {
        reveal(HnswIndex::beam_front);
        reveal(HnswIndex::beyond_last);
        Self::lemma_swap_remove_keeps(cands0, mi, cands1);
        assert forall|j: int| 0 <= j < cands1.len() implies dist_key(results.last().distance) < dist_key(
            #[trigger] cands1[j].distance,
        ) by {
            let i = choose|i: int| 0 <= i < cands0.len() && #[trigger] cands1[j] == cands0[i];
            assert(dist_key(cands0[mi].distance) <= dist_key(cands0[i].distance));
        }
        if never_nan(f) {
            assert forall|x: u64| #[trigger] visited.contains(x) && dist_key(dmap[x]) < dist_key(results.last().distance) implies expanded.contains(x)
                || super::topk::has_id(cands1, x as int) || None::<u64> == Some(x) by {
                if super::topk::has_id(cands0, x as int) && !expanded.contains(x) {
                    let i = choose|i: int| 0 <= i < cands0.len() && cands0[i].id == x as int;
                    assert(dmap[cands0[i].id] == cands0[i].distance);
                    if x == cands0[mi].id {
                        assert(dmap[cands0[mi].id] == cands0[mi].distance);
                        assert(false);
                    }
                    assert(super::topk::has_id(cands1, x as int));
                }
            }
        }
    }

    /// Expanding the current node keeps the front.
    proof fn lemma_front_expanded<F: Fn(&[T], &[T]) -> u32>(
        &self,
        f: F,
        visited: Set<u64>,
        dmap: Map<u64, u32>,
        expanded: Set<u64>,
        cands: Seq<SearchResult>,
        results: Seq<SearchResult>,
        cur: u64,
    )
        requires
            self.beam_front(f, visited, dmap, expanded, cands, results, Some(cur)),
        ensures
            self.beam_front(f, visited, dmap, expanded.insert(cur), cands, results, None),
    {
        reveal(HnswIndex::beam_front);
    }

    /// When the search ends, every visited node ranking before the last result
    /// was expanded, so all its neighbors were visited.
    #[verifier::spinoff_prover]
    #[verifier::rlimit(30)]
    proof fn lemma_front_done<F: Fn(&[T], &[T]) -> u32>(
        &self,
        f: F,
        q: Seq<T>,
        entries: Seq<u64>,
        layer: int,
        visited: Set<u64>,
        dmap: Map<u64, u32>,
        expanded: Set<u64>,
        cands: Seq<SearchResult>,
        results: Seq<SearchResult>,
    )
        requires
            self.navigable(),
            0 <= layer,
            self.beam_ok(f, q, entries, layer, visited, dmap, expanded, cands, results, None),
            self.beam_front(f, visited, dmap, expanded, cands, results, None),
            cands.len() == 0 || Self::beyond_last(cands, results),
        ensures
            never_nan(f) && results.len() > 0 ==> expanded_before(
                layer_lists(self.links(), layer),
                visited,
                dmap,
                results.last().distance,
            ),
    {
        reveal(HnswIndex::beam_front);
        reveal(HnswIndex::beyond_last);
        if never_nan(f) && results.len() > 0 {
            let lay = layer_lists(self.links(), layer);
            assert forall|x: u64, j: int|
                visited.contains(x) && dist_key(dmap[x]) < dist_key(results.last().distance) && 0 <= x < lay.len() && 0 <= j
                    < lay[x as int].len() implies visited.contains(#[trigger] lay[x as int][j]) by {
                if super::topk::has_id(cands, x as int) {
                    let i = choose|i: int| 0 <= i < cands.len() && cands[i].id == x as int;
                    assert(dmap[cands[i].id] == cands[i].distance);
                    assert(false);
                }
                assert(expanded.contains(x));
                assert(self.links()[x as int].len() == self.levels@[x as int] + 1);
                assert(lay[x as int] == self.links()[x as int][layer]);
            }
        }
    }

    /// When a beam search ends (it stopped with `width` or more results, or
    /// it ran out of candidates), its results cut to `width` are what a beam
    /// search of width `width` returns.
    #[verifier::spinoff_prover]
    proof fn lemma_beam_result<F: Fn(&[T], &[T]) -> u32>(
        &self,
        f: F,
        q: Seq<T>,
        entries: Seq<u64>,
        layer: int,
        width: int,
        visited: Set<u64>,
        dmap: Map<u64, u32>,
        expanded: Set<u64>,
        cands: Seq<SearchResult>,
        pre: Seq<SearchResult>,
        out: Seq<SearchResult>,
    )
        requires
            self.navigable(),
            0 <= layer,
            width >= 1,
            self.beam_ok(f, q, entries, layer, visited, dmap, expanded, cands, pre, None),
            self.beam_more(f, entries, layer, width, visited, dmap, expanded, cands, pre, None),
            self.beam_front(f, visited, dmap, expanded, cands, pre, None),
            forall|i: int| 0 <= i < entries.len() ==> visited.contains(#[trigger] entries[i]),
            pre.len() < width ==> cands.len() == 0,
            cands.len() == 0 || Self::beyond_last(cands, pre),
            out == pre.take(if pre.len() < width { pre.len() as int } else { width }),
        ensures
            beam_outcome(f, q, self.rows(), layer_lists(self.links(), layer), entries, width, out),
    {
        if pre.len() < width {
            self.lemma_more_closed(f, q, entries, layer, width, visited, dmap, expanded, cands, pre);
        }
        self.lemma_front_done(f, q, entries, layer, visited, dmap, expanded, cands, pre);
        self.lemma_more_measured(f, q, entries, layer, width, visited, dmap, expanded, cands, pre);
        lemma_measured_take(f, q, self.rows(), layer_lists(self.links(), layer), entries, width, pre, visited, dmap, out);
    }
}

/// Cutting the result of a beam search to its first `width` hits gives the
/// result of the search of width `width`.
proof fn lemma_measured_take<T, F: Fn(&[T], &[T]) -> u32>(
    f: F,
    q: Seq<T>,
    rows: Seq<Seq<T>>,
    lay: Seq<Seq<u64>>,
    entries: Seq<u64>,
    width: int,
    results: Seq<SearchResult>,
    v: Set<u64>,
    dm: Map<u64, u32>,
    out: Seq<SearchResult>,
)
    requires
        width >= 1,
        beam_measured(f, q, rows, lay, entries, if results.len() <= width { width } else { results.len() as int }, results, v, dm),
        out == results.take(if results.len() < width { results.len() as int } else { width }),
    ensures
        beam_measured(f, q, rows, lay, entries, width, out, v, dm),
{
    if results.len() > width {
        assert forall|j: int| 0 <= j < out.len() implies v.contains((#[trigger] out[j]).id) && dm[out[j].id]
            == out[j].distance by {
            assert(out[j] == results[j]);
        }
        assert forall|a: int, b: int| 0 <= a < b < out.len() implies dist_key(#[trigger] out[a].distance) <= dist_key(
            #[trigger] out[b].distance,
        ) by {
            assert(out[a] == results[a]);
            assert(out[b] == results[b]);
        }
        assert forall|a: int, b: int| 0 <= a < b < out.len() implies #[trigger] out[a].id != #[trigger] out[b].id by {
            assert(out[a] == results[a]);
            assert(out[b] == results[b]);
        }
        if never_nan(f) {
            let ol = out.len() - 1;
            assert(out.last() == results[ol]);
            assert(dist_key(results[ol].distance) <= dist_key(results[results.len() - 1].distance));
            assert forall|x: u64| #[trigger] v.contains(x) && !super::topk::has_id(out, x as int) implies dist_key(dm[x])
                >= dist_key(out.last().distance) by {
                if super::topk::has_id(results, x as int) {
                    let j = choose|j: int| 0 <= j < results.len() && results[j].id == x as int;
                    if j < out.len() {
                        assert(out[j] == results[j]);
                        assert(false);
                    }
                    assert(dist_key(results[ol].distance) <= dist_key(results[j].distance));
                } else {
                    assert(dist_key(results[ol].distance) <= dist_key(results[results.len() - 1].distance));
                }
            }
        }
    } else {
        assert(out =~= results);
    }
}

/// A list of distinct IDs below `n` that leaves out `i` has fewer than `n`
/// entries.
proof fn lemma_list_below_len(list: Seq<u64>, n: nat, i: u64)
    requires
        n <= u64::MAX + 1,
        i < n,
        forall|a: int, b: int| 0 <= a < b < list.len() ==> #[trigger] list[a] != #[trigger] list[b],
        forall|a: int| 0 <= a < list.len() ==> #[trigger] list[a] < n && list[a] != i,
    ensures
        list.len() < n,
{
    let all = lemma_ids_below(n);
    let rest = all.remove(i);
    assert(list.no_duplicates()) by {
        assert forall|a: int, b: int| 0 <= a < list.len() && 0 <= b < list.len() && a != b implies list[a] != list[b] by {
            if a < b {
                assert(list[a] != list[b]);
            } else {
                assert(list[b] != list[a]);
            }
        }
    }
    list.unique_seq_to_set();
    assert forall|x: u64| list.to_set().contains(x) implies rest.contains(x) by {
        let a = choose|a: int| 0 <= a < list.len() && list[a] == x;
        assert(list[a] < n && list[a] != i);
    }
    vstd::set_lib::lemma_len_subset(list.to_set(), rest);
}

/// On a complete bottom layer of `n` nodes, a beam search at least `n` wide
/// from stored nodes finds all of them, so the first `m >= n` found are all
/// stored nodes.
#[verifier::spinoff_prover]
#[verifier::rlimit(40)]
proof fn lemma_small_search_finds_all<T, F: Fn(&[T], &[T]) -> u32>(
    f: F,
    q: Seq<T>,
    rows: Seq<Seq<T>>,
    bl: Seq<Seq<Seq<u64>>>,
    level: u8,
    entries0: Seq<u64>,
    w: int,
    m: int,
    out0: Seq<SearchResult>,
    list: Seq<u64>,
    n: nat,
)
    requires
        bl.len() == n,
        n <= u64::MAX,
        bottom_complete(bl),
        forall|i: int| 0 <= i < n ==> #[trigger] bl[i].len() > 0,
        forall|i: int, j: int| 0 <= i < n && 0 <= j < bl[i][0].len() ==> #[trigger] bl[i][0][j] < n,
        entries0.len() > 0,
        forall|i: int| 0 <= i < entries0.len() ==> #[trigger] entries0[i] < n,
        layer_found(f, q, rows, with_new_node(bl, level), 0, entries0, w, m, out0, list),
        n <= m,
        n <= w,
    ensures
        forall|x: u64| x < n ==> #[trigger] list.contains(x),
{
    let g = with_new_node(bl, level);
    let lay = layer_lists(g, 0);
    assert forall|i: int| 0 <= i < n implies #[trigger] lay[i] == bl[i][0] by {
        assert(g[i] == bl[i]);
    }
    let reach = lemma_ids_below(n);
    assert forall|x: u64| #[trigger] reach.contains(x) <==> reachable(lay, entries0, x) by {
        let e = entries0[0];
        if x < n {
            lemma_entry_reachable(lay, entries0, 0);
            if x != e {
                assert(bl[e as int][0].contains(x));
                lemma_reach_step(lay, entries0, e, x);
            }
        }
        if reachable(lay, entries0, x) {
            let p = choose|p: Seq<u64>| path_to(lay, entries0, x, p);
            assert forall|i: int, j: int| 0 <= i < n && i < lay.len() && 0 <= j < lay[i].len() implies #[trigger] lay[i][j] < n by {
                assert(lay[i] == bl[i][0]);
            }
            lemma_path_stays_below(lay, entries0, x, p, n as int);
        }
    }
    lemma_beam_exhaustive(f, q, rows, lay, entries0, w, out0, reach);
    let ids = ids_of(out0);
    assert forall|a: int, b: int| 0 <= a < b < ids.len() implies #[trigger] ids[a] != #[trigger] ids[b] by {
        let (v, dm) = choose|v: Set<u64>, dm: Map<u64, u32>| #[trigger] beam_measured(f, q, rows, lay, entries0, w, out0, v, dm);
        assert(out0[a].id != out0[b].id);
    }
    assert forall|a: int| 0 <= a < ids.len() implies #[trigger] ids[a] < n + 1 && ids[a] != n by {
        assert(super::topk::has_id(out0, ids[a] as int));
        assert(reach.contains(ids[a]));
    }
    lemma_list_below_len(ids, n + 1, n as u64);
    assert(list =~= ids);
    assert forall|x: u64| x < n implies #[trigger] list.contains(x) by {
        assert(reach.contains(x));
        assert(super::topk::has_id(out0, x as int));
        let a = choose|a: int| 0 <= a < out0.len() && out0[a].id == x as int;
        assert(ids[a] == x);
    }
}

impl<T: Copy> HnswIndex<T> {
    /// While the index is small (no more vectors than `m`, `m_max0` and the
    /// construction width), an insertion keeps the bottom layer complete:
    /// the beam search finds every stored node, the new node lists them all,
    /// and each of them lists it back without pruning.
    #[verifier::spinoff_prover]
    #[verifier::rlimit(40)]
    pub proof fn lemma_small_insert_keeps_bottom_complete<F: Fn(&[T], &[T]) -> u32>(
        before: Self,
        after: Self,
        vector: Seq<T>,
        level: u8,
        id: u64,
        f: F,
    )
        requires
            before.wf(),
            after.wf(),
            Self::insert_post(before, after, vector, level, id, f),
            bottom_complete(before.links()),
            before.rows().len() <= before.spec_params().m,
            before.rows().len() <= before.spec_params().m_max0,
            before.rows().len() <= Self::beam_width(before.spec_params().ef_construction),
        ensures
            bottom_complete(after.links()),
    {
        before.lemma_wf_unfolds();
        after.lemma_wf_unfolds();
        let n = before.rows().len();
        let bl = before.links();
        let al = after.links();
        if before.spec_entry_point() is None {
            assert(n == 0);
            return;
        }
        let top = top_linked_layer(before.spec_entry_point(), before.spec_max_level(), level);
        let g = with_new_node(bl, level);
        let m = before.spec_params().m as int;
        let w = Self::beam_width(before.spec_params().ef_construction);
        let (ep, outs) = choose|ep: u64, outs: Seq<Seq<SearchResult>>|
            #[trigger] placed_by_searches(
                f,
                vector,
                after.rows(),
                g,
                before.spec_entry_point().unwrap(),
                before.spec_max_level() as int,
                top,
                w,
                m,
                al[id as int],
                outs,
                ep,
            );
        let entries0 = if 0 == top { seq![ep] } else { ids_of(outs[1]) };
        assert(layer_found(f, vector, after.rows(), g, 0, entries0, w, m, outs[0], al[id as int][0]));
        assert forall|i: int| 0 <= i < entries0.len() implies #[trigger] entries0[i] < n by {
            if 0 != top {
                assert(entries0[i] == outs[1][i].id);
            }
        }
        assert(entries0.len() > 0) by {
            if 0 != top {
                assert(outs[1].len() > 0);
            }
        }
        assert forall|i: int| 0 <= i < n implies #[trigger] bl[i].len() > 0 by {
            assert(bl[i].len() == before.spec_levels()[i] + 1);
        }
        lemma_small_search_finds_all(f, vector, after.rows(), bl, level, entries0, w, m, outs[0], al[id as int][0], n);
        assert(id == n);
        assert forall|i: int, j: u64| 0 <= i < al.len() && j < al.len() && i != j implies #[trigger] al[i][0].contains(j) by {
            if i < n {
                let x = i as u64;
                assert(al[id as int][0].contains(x));
                let a = choose|a: int| 0 <= a < al[id as int][0].len() && al[id as int][0][a] == x;
                assert(joined_or_pruned(f, after.rows(), g[x as int][0], al[x as int][0], x, id, degree_cap(before.spec_params(), 0)));
                let bx = bl[i][0];
                assert(g[i][0] == bx);
                lemma_list_below_len(bx, n, x);
                assert(al[i][0] == bx.push(id));
                if j != id {
                    assert(bx.contains(j));
                    let c = choose|c: int| 0 <= c < bx.len() && bx[c] == j;
                    assert(al[i][0][c] == j);
                } else {
                    assert(al[i][0][bx.len() as int] == j);
                }
            }
        }
    }
}

/// On an index holding a single vector, a search for one neighbor returns
/// that vector.
pub proof fn lemma_single_point_search<T, F: Fn(&[T], &[T]) -> u32>(
    f: F,
    q: Seq<T>,
    rows: Seq<Seq<T>>,
    hits: Seq<SearchResult>,
)
    requires
        rows.len() == 1,
        approximate_hits(f, q, rows, 1, hits),
    ensures
        hits.len() == 1,
        hits[0].id == 0,
{
    assert(hits[0].id < rows.len());
}

/// The first insertion into an empty index makes the new node the entry
/// point, on the top layer, with no neighbors.
pub proof fn lemma_first_insert_is_entry_point<T: Copy, F: Fn(&[T], &[T]) -> u32>(
    before: HnswIndex<T>,
    after: HnswIndex<T>,
    v: Seq<T>,
    level: u8,
    id: u64,
    f: F,
)
    requires
        before.wf(),
        before.rows().len() == 0,
        HnswIndex::<T>::insert_post(before, after, v, level, id, f),
    ensures
        id == 0,
        after.rows() == seq![v],
        after.spec_entry_point() == Some(0u64),
        after.spec_max_level() == level,
        forall|y: int| 0 <= y <= level ==> (#[trigger] after.links()[0][y]).len() == 0,
{
    assert(before.spec_entry_point() is None);
    assert(after.rows() =~= seq![v]);
}

impl<T: Copy> HnswIndex<T> {
    /// One step of building an index: `after` is `before` with one more
    /// vector inserted with the metric oracle `f`, under the same parameters.
    pub open spec fn build_step<F: Fn(&[T], &[T]) -> u32>(before: Self, after: Self, f: F) -> bool {
        &&& after.spec_params() == before.spec_params()
        &&& exists|v: Seq<T>, level: u8, id: u64| #[trigger] Self::insert_post(before, after, v, level, id, f)
    }

    /// `states` is the history of an index built by insertions with the
    /// metric oracle `f` into an empty index.
    pub open spec fn built_by_inserts<F: Fn(&[T], &[T]) -> u32>(states: Seq<Self>, f: F) -> bool {
        &&& states.len() > 0
        &&& states[0].rows().len() == 0
        &&& forall|i: int| 0 <= i < states.len() ==> #[trigger] states[i].wf()
        &&& forall|i: int| 0 < i < states.len() ==> #[trigger] Self::build_step(states[i - 1], states[i], f)
    }

    /// The index holds at most `m + 1` vectors, and no more than
    /// `m_max0 + 1` nor the construction width plus one: every insertion so
    /// far could link the new node to all the others.
    pub open spec fn fully_linked_size(&self) -> bool {
        &&& self.rows().len() <= self.spec_params().m + 1
        &&& self.rows().len() <= self.spec_params().m_max0 + 1
        &&& self.rows().len() <= Self::beam_width(self.spec_params().ef_construction) + 1
    }

    /// An index built by insertions into an empty index has a complete
    /// bottom layer while it is small: every node lists every other node on
    /// layer 0.
    pub proof fn lemma_small_build_bottom_complete<F: Fn(&[T], &[T]) -> u32>(states: Seq<Self>, f: F)
        requires
            Self::built_by_inserts(states, f),
            states.last().fully_linked_size(),
        ensures
            bottom_complete(states.last().links()),
        decreases states.len(),
    {
        let last = states.last();
        let t = states.len() - 1;
        assert(states[t].wf());
        last.lemma_wf_unfolds();
        if states.len() == 1 {
            assert(last.rows().len() == 0);
        } else {
            let prev = states.drop_last();
            let before = states[t - 1];
            assert(Self::build_step(states[t - 1], states[t], f));
            let (v, level, id) = choose|v: Seq<T>, level: u8, id: u64| #[trigger] Self::insert_post(before, last, v, level, id, f);
            assert(prev.last() == before);
            assert(Self::built_by_inserts(prev, f)) by {
                assert forall|i: int| 0 <= i < prev.len() implies #[trigger] prev[i].wf() by {
                    assert(prev[i] == states[i]);
                }
                assert forall|i: int| 0 < i < prev.len() implies #[trigger] Self::build_step(prev[i - 1], prev[i], f) by {
                    assert(prev[i] == states[i]);
                    assert(prev[i - 1] == states[i - 1]);
                }
            }
            assert(before.rows().len() + 1 == last.rows().len());
            Self::lemma_small_build_bottom_complete(prev, f);
            assert(states[t - 1].wf());
            Self::lemma_small_insert_keeps_bottom_complete(before, last, v, level, id, f);
        }
    }

    /// A search on an index whose bottom layer is complete, with a width of
    /// at least the number of stored vectors, returns the exact top `k` when
    /// the oracle never returns NaN and each stored vector is at one distance
    /// from the query, no two at the same rank.
    #[verifier::spinoff_prover]
    #[verifier::rlimit(40)]
    pub proof fn lemma_complete_bottom_search_is_top_k<F: Fn(&[T], &[T]) -> u32>(
        &self,
        f: F,
        q: Seq<T>,
        k: usize,
        hits: Seq<SearchResult>,
    )
        requires
            self.wf(),
            bottom_complete(self.links()),
            self.search_post(f, q, k, hits),
            hits.len() == k,
            1 <= k <= self.rows().len(),
            self.rows().len() <= Self::search_width(self.spec_params(), k),
            never_nan(f),
            super::flat::distinct_distances(f, q, self.rows()),
        ensures
            super::flat::exact_top_k(f, q, self.rows(), k as int, hits),
    {
        self.lemma_complete_bottom_search_is_exact(f, q, k, hits);
        let n = self.rows().len();
        let rows = self.rows();
        let w = Self::search_width(self.spec_params(), k);
        let (start, out) = choose|start: u64, out: Seq<SearchResult>|
            start < self.rows().len() && layered_descent(
                f,
                q,
                self.rows(),
                self.links(),
                self.spec_entry_point().unwrap(),
                self.spec_max_level() as int,
                0,
                start,
            ) && #[trigger] beam_outcome(
                f,
                q,
                self.rows(),
                layer_lists(self.links(), 0),
                seq![start],
                Self::search_width(self.spec_params(), k),
                out,
            ) && (never_nan(f) && out.len() > 0 ==> self.local_minimum(f, q, 0, out[0])) && if k <= out.len() {
                hits == out.take(k as int)
            } else {
                super::flat::exact_top_k(f, q, self.rows(), k as int, hits)
            };
        if k <= out.len() {
            let lay = layer_lists(self.links(), 0);
            let reach = lemma_ids_below(n);
            assert forall|x: u64| #[trigger] reach.contains(x) <==> reachable(lay, seq![start], x) by {
                lemma_complete_bottom_reach(self.links(), n as int, start, x);
            }
            lemma_beam_exhaustive(f, q, rows, lay, seq![start], w, out, reach);
            let (v, dm) = choose|v: Set<u64>, dm: Map<u64, u32>| #[trigger] beam_measured(f, q, rows, lay, seq![start], w, out, v, dm);
            assert forall|j: int| 0 <= j < k implies (#[trigger] hits[j]).id < n && measured(
                f,
                q,
                rows[hits[j].id as int],
                hits[j].distance,
            ) by {
                assert(hits[j] == out[j]);
                assert(v.contains(out[j].id));
                assert(super::topk::has_id(out, out[j].id as int));
                assert(reach.contains(out[j].id));
            }
            let ds = Seq::new(n, |i: int| choose|d: u32| measured(f, q, rows[i], d));
            assert forall|i: int| 0 <= i < n implies measured(f, q, rows[i], #[trigger] ds[i]) by {
                if super::topk::has_id(hits, i) {
                    let j = choose|j: int| 0 <= j < hits.len() && hits[j].id == i;
                    assert(measured(f, q, rows[i], hits[j].distance));
                } else {
                    let x = i as u64;
                    assert(x < n && !super::topk::has_id(hits, x as int));
                    assert(exists|d: u32| #[trigger] measured(f, q, rows[x as int], d));
                }
            }
            assert(rows_measured(f, q, rows, ds));
            assert forall|j: int| 0 <= j < k implies (#[trigger] hits[j]).id < ds.len() && hits[j].distance
                == ds[hits[j].id as int] by {
                let i = hits[j].id as int;
                assert(measured(f, q, rows[i], ds[i]));
                assert(measured(f, q, rows[i], hits[j].distance));
            }
            assert forall|a: int, b: int| 0 <= a < b < k implies super::topk::precedes(#[trigger] hits[a], #[trigger] hits[b]) by {
                assert(hits[a] == out[a]);
                assert(hits[b] == out[b]);
                assert(out[a].id != out[b].id);
                assert(dist_key(out[a].distance) <= dist_key(out[b].distance));
                assert(measured(f, q, rows[hits[a].id as int], hits[a].distance));
                assert(measured(f, q, rows[hits[b].id as int], hits[b].distance));
            }
            assert forall|r: int| 0 <= r < ds.len() && !super::topk::has_id(hits, r) implies super::topk::precedes(
                hits[k - 1],
                #[trigger] super::topk::hit_at(ds, r),
            ) by {
                let x = r as u64;
                assert(x < n && !super::topk::has_id(hits, x as int));
                let d = choose|d: u32| #[trigger] measured(f, q, rows[x as int], d) && dist_key(hits.last().distance) <= dist_key(d);
                assert(measured(f, q, rows[r], ds[r]));
                assert(d == ds[r]);
                let last = hits[k - 1];
                assert(hits.last() == last);
                assert(measured(f, q, rows[last.id as int], last.distance));
                if last.id == r {
                    assert(super::topk::has_id(hits, r));
                }
            }
            assert(is_top_k(ds, k as int, hits));
        }
    }

    /// An index built by insertions into an empty index that holds at most
    /// `m + 1` vectors (no more than `m_max0 + 1` nor the construction width
    /// plus one) answers a search whose width covers it as the flat index
    /// does: when the oracle never returns NaN and each stored vector is at
    /// one distance from the query, no two at the same rank, the hits are
    /// the exact top `k`, the very hits of any exact search of the same
    /// vectors.
    pub proof fn lemma_small_index_agrees_with_flat<F: Fn(&[T], &[T]) -> u32>(
        states: Seq<Self>,
        f: F,
        q: Seq<T>,
        k: usize,
        hits: Seq<SearchResult>,
        exact: Seq<SearchResult>,
    )
        requires
            Self::built_by_inserts(states, f),
            states.last().fully_linked_size(),
            states.last().search_post(f, q, k, hits),
            hits.len() == k,
            1 <= k <= states.last().rows().len(),
            states.last().rows().len() <= Self::search_width(states.last().spec_params(), k),
            never_nan(f),
            super::flat::distinct_distances(f, q, states.last().rows()),
            super::flat::exact_top_k(f, q, states.last().rows(), k as int, exact),
        ensures
            hits == exact,
    {
        let h = states.last();
        assert(states[states.len() - 1].wf());
        Self::lemma_small_build_bottom_complete(states, f);
        h.lemma_complete_bottom_search_is_top_k(f, q, k, hits);
        super::flat::lemma_exact_top_k_unique(f, q, h.rows(), k as int, hits, exact);
    }
}

} // verus!
