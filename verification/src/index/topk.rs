//! Selection of the `k` best hits from a list of measured distances.
//!
//! Hits are ranked by the rank of their distance (the floating-point order,
//! with both zeros equal); among equal ranks the earlier position ranks
//! first. This is the order that a stable sort by distance produces, so
//! "sort, then keep the first `k`" and [`select_top_k`] give the same hits.

use vstd::prelude::*;
use crate::ieee::rank;
use super::{dist_key, sorted_by_distance, SearchResult};

verus! {

/// `a` ranks strictly before `b`: smaller distance key, or the same key and a
/// smaller ID.
pub open spec fn precedes(a: SearchResult, b: SearchResult) -> bool {
    ||| dist_key(a.distance) < dist_key(b.distance)
    ||| (dist_key(a.distance) == dist_key(b.distance) && a.id < b.id)
}

/// The hit that position `r` of `ds` stands for.
pub open spec fn hit_at(ds: Seq<u32>, r: int) -> SearchResult {
    SearchResult { id: r as u64, distance: ds[r] }
}

/// Some hit of `out` carries ID `r`.
pub open spec fn has_id(out: Seq<SearchResult>, r: int) -> bool {
    exists|j: int| 0 <= j < out.len() && out[j].id == r
}

/// `out` lists, best first, the `k` positions of `ds` that rank first.
pub open spec fn is_top_k(ds: Seq<u32>, k: int, out: Seq<SearchResult>) -> bool {
    &&& out.len() == k
    &&& forall|j: int|
        0 <= j < k ==> (#[trigger] out[j]).id < ds.len() && out[j].distance == ds[out[j].id as int]
    &&& forall|a: int, b: int| 0 <= a < b < k ==> precedes(#[trigger] out[a], #[trigger] out[b])
    &&& k > 0 ==> forall|r: int|
        0 <= r < ds.len() && !has_id(out, r) ==> precedes(out[k - 1], #[trigger] hit_at(ds, r))
}

/// `precedes` is a strict order.
pub proof fn lemma_precedes_transitive(a: SearchResult, b: SearchResult, c: SearchResult)
    ensures
        !precedes(a, a),
        precedes(a, b) && precedes(b, c) ==> precedes(a, c),
{
}

/// A list ranked strictly by `precedes` is sorted by distance.
pub proof fn lemma_ranked_is_sorted(out: Seq<SearchResult>)
    requires
        forall|a: int, b: int|
            0 <= a < b < out.len() ==> precedes(#[trigger] out[a], #[trigger] out[b]),
    ensures
        sorted_by_distance(out),
{
}

/// The hits of a top-`k` selection are sorted by distance and carry distinct
/// positions.
pub proof fn lemma_top_k_sorted_distinct(ds: Seq<u32>, k: int, out: Seq<SearchResult>)
    requires
        is_top_k(ds, k, out),
    ensures
        sorted_by_distance(out),
        super::distinct_ids(out),
{
    assert forall|a: int, b: int| 0 <= a < b < out.len() implies #[trigger] out[a].id
        != #[trigger] out[b].id by {
        assert(precedes(out[a], out[b]));
    }
}

/// Below position `j`, two top-`k` selections of the same distances agree;
/// then the hit of the first at `j` does not rank before the hit of the
/// second at `j`.
proof fn lemma_top_k_not_before(ds: Seq<u32>, k: int, ha: Seq<SearchResult>, hb: Seq<SearchResult>, j: int)
    requires
        is_top_k(ds, k, ha),
        is_top_k(ds, k, hb),
        0 <= j < k,
        forall|i: int| 0 <= i < j ==> #[trigger] ha[i] == hb[i],
    ensures
        !precedes(ha[j], hb[j]),
{
    if precedes(ha[j], hb[j]) {
        let x = ha[j].id as int;
        assert(ha[j] == hit_at(ds, x));
        lemma_precedes_transitive(ha[j], hb[j], ha[j]);
        if has_id(hb, x) {
            let j2 = choose|j2: int| 0 <= j2 < hb.len() && hb[j2].id == x;
            assert(hb[j2] == hit_at(ds, x));
            if j2 < j {
                assert(ha[j2] == hb[j2]);
                assert(precedes(ha[j2], ha[j]));
                lemma_precedes_transitive(ha[j], ha[j], ha[j]);
            } else if j2 > j {
                assert(precedes(hb[j], hb[j2]));
            }
        } else {
            assert(precedes(hb[k - 1], hit_at(ds, x)));
            if j < k - 1 {
                assert(precedes(hb[j], hb[k - 1]));
                lemma_precedes_transitive(hb[j], hb[k - 1], ha[j]);
            }
        }
    }
}

/// Two top-`k` selections of the same distances agree below position `j`.
proof fn lemma_top_k_prefix_agrees(ds: Seq<u32>, k: int, h1: Seq<SearchResult>, h2: Seq<SearchResult>, j: int)
    requires
        is_top_k(ds, k, h1),
        is_top_k(ds, k, h2),
        0 <= j <= k,
    ensures
        forall|i: int| 0 <= i < j ==> #[trigger] h1[i] == h2[i],
    decreases j,
{
    if j > 0 {
        lemma_top_k_prefix_agrees(ds, k, h1, h2, j - 1);
        let i = j - 1;
        lemma_top_k_not_before(ds, k, h1, h2, i);
        lemma_top_k_not_before(ds, k, h2, h1, i);
        assert(h1[i] == hit_at(ds, h1[i].id as int));
        assert(h2[i] == hit_at(ds, h2[i].id as int));
    }
}

/// The top `k` of a list of distances is unique: `precedes` orders any two
/// positions, ties going to the smaller one.
pub proof fn lemma_top_k_unique(ds: Seq<u32>, k: int, h1: Seq<SearchResult>, h2: Seq<SearchResult>)
    requires
        is_top_k(ds, k, h1),
        is_top_k(ds, k, h2),
    ensures
        h1 == h2,
{
    lemma_top_k_prefix_agrees(ds, k, h1, h2, k);
    assert(h1 =~= h2);
}

/// Inserts `e` into `v`, which is sorted by distance, after every element
/// whose key does not exceed that of `e`.
pub fn insert_by_distance(v: &mut Vec<SearchResult>, e: SearchResult) -> (pos: usize)
    requires
        sorted_by_distance(old(v)@),
    ensures
        pos <= old(v)@.len(),
        final(v)@ == old(v)@.insert(pos as int, e),
        forall|j: int| 0 <= j < pos ==> dist_key(#[trigger] old(v)@[j].distance) <= dist_key(e.distance),
        forall|j: int|
            pos <= j < old(v)@.len() ==> dist_key(#[trigger] old(v)@[j].distance) > dist_key(e.distance),
        sorted_by_distance(final(v)@),
{
    let ke = rank(e.distance);
    let len = v.len();
    let mut p: usize = 0;
    while p < len && rank(v[p].distance) <= ke
        invariant
            p <= len,
            len == v@.len(),
            v@ == old(v)@,
            sorted_by_distance(v@),
            ke == crate::ieee::spec_rank(e.distance),
            forall|j: int| 0 <= j < p ==> dist_key(#[trigger] v@[j].distance) <= dist_key(e.distance),
        decreases len - p,
    {
        p = p + 1;
    }
    proof {
        if p < len {
            assert forall|j: int| p <= j < len implies dist_key(#[trigger] v@[j].distance) > dist_key(
                e.distance,
            ) by {
                if j > p {
                    assert(dist_key(v@[p as int].distance) <= dist_key(v@[j].distance));
                }
            }
        }
    }
    let ghost before = v@;
    v.insert(p, e);
    proof {
        before.insert_ensures(p as int, e);
        assert forall|a: int, b: int| 0 <= a < b < v@.len() implies dist_key(
            #[trigger] v@[a].distance,
        ) <= dist_key(#[trigger] v@[b].distance) by {
            if b < p {
            } else if b == p {
            } else if a < p {
                assert(v@[b] == before[b - 1]);
            } else if a == p {
                assert(v@[b] == before[b - 1]);
            } else {
                assert(v@[a] == before[a - 1]);
                assert(v@[b] == before[b - 1]);
            }
        }
    }
    p
}

/// After positions `0..i` of `ds` were offered, `out` holds the
/// `min(k, i)` of them that rank first, best first.
#[verifier::opaque]
pub open spec fn ranked_prefix(ds: Seq<u32>, k: int, i: int, out: Seq<SearchResult>) -> bool {
    &&& out.len() == if i < k { i } else { k }
    &&& forall|j: int|
        0 <= j < out.len() ==> (#[trigger] out[j]).id < i && out[j].distance == ds[out[j].id as int]
    &&& forall|a: int, b: int| 0 <= a < b < out.len() ==> precedes(#[trigger] out[a], #[trigger] out[b])
    &&& forall|r: int|
        #![trigger has_id(out, r)]
        0 <= r < i && !has_id(out, r) ==> out.len() == k && (k > 0 ==> precedes(
            out[k - 1],
            hit_at(ds, r),
        ))
}

/// Offering position `i` while fewer than `k` hits are kept.
proof fn lemma_step_grow(ds: Seq<u32>, k: int, i: int, prev: Seq<SearchResult>, p: int)
    requires
        0 <= i < ds.len() <= u64::MAX,
        ranked_prefix(ds, k, i, prev),
        prev.len() < k,
        0 <= p <= prev.len(),
        forall|j: int| 0 <= j < p ==> dist_key(#[trigger] prev[j].distance) <= dist_key(ds[i]),
        forall|j: int| p <= j < prev.len() ==> dist_key(#[trigger] prev[j].distance) > dist_key(ds[i]),
    ensures
        ranked_prefix(ds, k, i + 1, prev.insert(p, hit_at(ds, i))),
{
    reveal(ranked_prefix);
    let e = hit_at(ds, i);
    let out = prev.insert(p, e);
    prev.insert_ensures(p, e);
    lemma_insert_keeps_ranking(prev, p, e, i);
    assert forall|j: int| 0 <= j < out.len() implies (#[trigger] out[j]).id < i + 1 && out[j].distance
        == ds[out[j].id as int] by {
        if j < p {
        } else if j > p {
            assert(out[j] == prev[j - 1]);
        }
    }
    assert forall|r: int| 0 <= r < i + 1 && !#[trigger] has_id(out, r) implies out.len() == k && (k > 0
        ==> precedes(out[k - 1], hit_at(ds, r))) by {
        if r < i {
            if !has_id(prev, r) {
                assert(false);
            }
            let j = choose|j: int| 0 <= j < prev.len() && prev[j].id == r;
            if j < p {
                assert(out[j] == prev[j]);
                assert(has_id(out, r));
            } else {
                assert(out[j + 1] == prev[j]);
                assert(has_id(out, r));
            }
        } else {
            assert(out[p].id == r);
            assert(has_id(out, r));
        }
    }
}

/// Offering position `i` when `k` hits are kept and it ranks before the last.
proof fn lemma_step_replace(ds: Seq<u32>, k: int, i: int, prev: Seq<SearchResult>, p: int)
    requires
        0 <= i < ds.len() <= u64::MAX,
        ranked_prefix(ds, k, i, prev),
        prev.len() == k,
        k > 0,
        dist_key(ds[i]) < dist_key(prev[k - 1].distance),
        0 <= p <= prev.len(),
        forall|j: int| 0 <= j < p ==> dist_key(#[trigger] prev[j].distance) <= dist_key(ds[i]),
        forall|j: int| p <= j < prev.len() ==> dist_key(#[trigger] prev[j].distance) > dist_key(ds[i]),
    ensures
        ranked_prefix(ds, k, i + 1, prev.insert(p, hit_at(ds, i)).drop_last()),
{
    reveal(ranked_prefix);
    let e = hit_at(ds, i);
    let full = prev.insert(p, e);
    let out = full.drop_last();
    let last = prev[k - 1];
    prev.insert_ensures(p, e);
    lemma_insert_keeps_ranking(prev, p, e, i);
    assert(p < k);
    assert(full[k] == last);
    assert(precedes(out[k - 1], last)) by {
        if p == k - 1 {
            assert(out[k - 1] == e);
        } else {
            assert(out[k - 1] == prev[k - 2]);
        }
    }
    assert forall|j: int| 0 <= j < out.len() implies (#[trigger] out[j]).id < i + 1 && out[j].distance
        == ds[out[j].id as int] by {
        assert(out[j] == full[j]);
        if j < p {
        } else if j > p {
            assert(full[j] == prev[j - 1]);
        }
    }
    assert forall|a: int, b: int| 0 <= a < b < out.len() implies precedes(
        #[trigger] out[a],
        #[trigger] out[b],
    ) by {
        assert(out[a] == full[a]);
        assert(out[b] == full[b]);
    }
    assert forall|r: int| 0 <= r < i + 1 && !#[trigger] has_id(out, r) implies out.len() == k && (k > 0
        ==> precedes(out[k - 1], hit_at(ds, r))) by {
        if r == last.id {
            assert(hit_at(ds, r) == last);
        } else if r < i && !has_id(prev, r) {
            lemma_precedes_transitive(out[k - 1], last, hit_at(ds, r));
        } else if r < i {
            let j = choose|j: int| 0 <= j < prev.len() && prev[j].id == r;
            if j < p {
                assert(out[j] == prev[j]);
            } else {
                assert(full[j + 1] == prev[j]);
                assert(j + 1 < k) by {
                    if j + 1 == k {
                        assert(prev[j] == last);
                    }
                }
                assert(out[j + 1] == full[j + 1]);
            }
        } else {
            assert(out[p] == full[p]);
        }
    }
}

/// Offering position `i` when `k` hits are kept and it does not rank before
/// the last.
proof fn lemma_step_skip(ds: Seq<u32>, k: int, i: int, prev: Seq<SearchResult>)
    requires
        0 <= i < ds.len() <= u64::MAX,
        ranked_prefix(ds, k, i, prev),
        prev.len() == k,
        k > 0 ==> dist_key(ds[i]) >= dist_key(prev[k - 1].distance),
    ensures
        ranked_prefix(ds, k, i + 1, prev),
{
    reveal(ranked_prefix);
    assert forall|r: int| 0 <= r < i + 1 && !#[trigger] has_id(prev, r) implies prev.len() == k && (k > 0
        ==> precedes(prev[k - 1], hit_at(ds, r))) by {
        if r == i && k > 0 {
            assert(prev[k - 1].id < i);
        }
    }
}

/// The `k` positions of `dists` with the smallest distances, best first.
/// Equal distances keep their order of position.
pub fn select_top_k(dists: &[u32], k: usize) -> (out: Vec<SearchResult>)
    requires
        k <= dists@.len(),
    ensures
        is_top_k(dists@, k as int, out@),
{
    let ghost ds = dists@;
    let mut out: Vec<SearchResult> = Vec::new();
    let n = dists.len();
    let mut i: usize = 0;
    proof {
        reveal(ranked_prefix);
    }
    while i < n
        invariant
            n == ds.len(),
            ds == dists@,
            k <= n,
            i <= n,
            ranked_prefix(ds, k as int, i as int, out@),
        decreases n - i,
    {
        let e = SearchResult { id: i as u64, distance: dists[i] };
        assert(e == hit_at(ds, i as int));
        let ghost prev = out@;
        proof {
            reveal(ranked_prefix);
            lemma_ranked_is_sorted(prev);
        }
        if out.len() < k {
            let p = insert_by_distance(&mut out, e);
            proof {
                lemma_step_grow(ds, k as int, i as int, prev, p as int);
            }
        } else if k > 0 && rank(e.distance) < rank(out[k - 1].distance) {
            let p = insert_by_distance(&mut out, e);
            out.pop();
            proof {
                lemma_step_replace(ds, k as int, i as int, prev, p as int);
            }
        } else {
            proof {
                lemma_step_skip(ds, k as int, i as int, prev);
            }
        }
        i = i + 1;
    }
    proof {
        reveal(ranked_prefix);
        if k > 0 {
            assert forall|r: int| 0 <= r < ds.len() && !has_id(out@, r) implies precedes(
                out@[k - 1],
                #[trigger] hit_at(ds, r),
            ) by {
                assert(!has_id(out@, r));
            }
        }
    }
    out
}

/// Inserting `e`, which ranks after every element of the prefix and before
/// every element of the suffix, keeps a ranked list ranked.
proof fn lemma_insert_keeps_ranking(prev: Seq<SearchResult>, p: int, e: SearchResult, i: int)
    requires
        0 <= p <= prev.len(),
        e.id == i,
        0 <= i,
        forall|j: int| 0 <= j < prev.len() ==> (#[trigger] prev[j]).id < i,
        forall|a: int, b: int| 0 <= a < b < prev.len() ==> precedes(#[trigger] prev[a], #[trigger] prev[b]),
        forall|j: int| 0 <= j < p ==> dist_key(#[trigger] prev[j].distance) <= dist_key(e.distance),
        forall|j: int| p <= j < prev.len() ==> dist_key(#[trigger] prev[j].distance) > dist_key(e.distance),
    ensures
        forall|a: int, b: int|
            0 <= a < b < prev.len() + 1 ==> precedes(
                #[trigger] prev.insert(p, e)[a],
                #[trigger] prev.insert(p, e)[b],
            ),
{
    prev.insert_ensures(p, e);
    let s = prev.insert(p, e);
    assert forall|a: int, b: int| 0 <= a < b < prev.len() + 1 implies precedes(
        #[trigger] s[a],
        #[trigger] s[b],
    ) by {
        if b < p {
        } else if b == p {
            assert(s[a] == prev[a]);
        } else if a < p {
            assert(s[b] == prev[b - 1]);
        } else if a == p {
            assert(s[b] == prev[b - 1]);
        } else {
            assert(s[a] == prev[a - 1]);
            assert(s[b] == prev[b - 1]);
        }
    }
}

} // verus!
