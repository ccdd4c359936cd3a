//! HNSW index: construction, search, graph shape.

use std::cell::RefCell;
use std::collections::HashSet;

use rand::rngs::StdRng;
use rand::Rng;
use rand::SeedableRng;
use vex::distance::Distance;
use vex::error::VexError;
use vex::index::flat::FlatIndex;
use vex::index::hnsw::{HnswIndex, HnswParams};

fn l2_bits(a: &[f32], b: &[f32]) -> u32 {
    let mut sum = 0.0f32;
    for i in 0..a.len() {
        let d = a[i] - b[i];
        sum += d * d;
    }
    sum.to_bits()
}

/// Level sampling as the server does it: `floor(-ln(U) / ln(m))`.
struct Levels {
    rng: RefCell<StdRng>,
    m_l: f64,
}

impl Levels {
    fn new(params: &HnswParams) -> Self {
        Levels { rng: RefCell::new(StdRng::seed_from_u64(params.seed)), m_l: 1.0 / (params.m as f64).ln() }
    }

    fn draw(&self) -> u8 {
        let u: f64 = self.rng.borrow_mut().gen_range(f64::EPSILON..1.0);
        let l = (-u.ln() * self.m_l).floor() as i64;
        l.max(0).min(u8::MAX as i64) as u8
    }
}

fn random_unit_vectors(n: usize, d: usize, seed: u64) -> Vec<Vec<f32>> {
    let mut rng = StdRng::seed_from_u64(seed);
    (0..n)
        .map(|_| {
            let v: Vec<f32> = (0..d).map(|_| rng.gen_range(-1.0..1.0)).collect();
            let norm = v.iter().map(|x| x * x).sum::<f32>().sqrt();
            v.into_iter().map(|x| x / norm.max(1e-12)).collect()
        })
        .collect()
}

#[test]
fn single_insert_becomes_entry_point() {
    let params = HnswParams::default();
    let levels = Levels::new(&params);
    let mut idx: HnswIndex<f32> = HnswIndex::new(3, Distance::L2, params);
    let id = idx.insert(&[1.0, 2.0, 3.0], &|| levels.draw(), &l2_bits).unwrap();
    assert_eq!(id, 0);
    assert_eq!(idx.len(), 1);
    assert_eq!(idx.entry_point(), Some(0));
}

#[test]
fn search_after_one_insert_returns_that_point() {
    let params = HnswParams::default();
    let levels = Levels::new(&params);
    let mut idx: HnswIndex<f32> = HnswIndex::new(3, Distance::L2, params);
    idx.insert(&[1.0, 2.0, 3.0], &|| levels.draw(), &l2_bits).unwrap();
    let hits = idx.search(&[1.1, 2.1, 3.1], 1, &l2_bits).unwrap();
    assert_eq!(hits[0].id, 0);
}

#[test]
fn hnsw_high_recall_on_1000_vectors_128d() {
    let d = 64;
    let n = 1000;
    let vecs = random_unit_vectors(n, d, 0);

    let params = HnswParams::default();
    let levels = Levels::new(&params);
    let mut flat: FlatIndex<f32> = FlatIndex::new(d, Distance::L2);
    let mut hnsw: HnswIndex<f32> = HnswIndex::new(d, Distance::L2, params);
    for v in &vecs {
        flat.insert(v).unwrap();
        hnsw.insert(v, &|| levels.draw(), &l2_bits).unwrap();
    }

    let mut rng = StdRng::seed_from_u64(99);
    let mut recall_sum = 0.0;
    let trials = 20;
    let k = 10;
    for _ in 0..trials {
        let i: usize = rng.gen_range(0..n);
        let q: Vec<f32> = vecs[i].iter().map(|x| x + rng.gen_range(-0.01..0.01)).collect();
        let flat_hits: HashSet<u64> = flat.search(&q, k, &l2_bits).unwrap().iter().map(|h| h.id).collect();
        let hnsw_hits: HashSet<u64> = hnsw.search(&q, k, &l2_bits).unwrap().iter().map(|h| h.id).collect();
        let intersection = flat_hits.intersection(&hnsw_hits).count();
        recall_sum += intersection as f64 / k as f64;
    }
    let recall = recall_sum / trials as f64;
    assert!(recall >= 0.85, "recall@{k} too low: {recall:.3} (want >=0.85)");
}

#[test]
fn hnsw_errors_match_the_flat_index() {
    let params = HnswParams::default();
    let levels = Levels::new(&params);
    let mut idx: HnswIndex<f32> = HnswIndex::new(2, Distance::L2, params);
    assert_eq!(idx.search(&[0.0, 0.0], 1, &l2_bits).unwrap_err(), VexError::EmptyIndex);
    assert_eq!(
        idx.insert(&[1.0], &|| levels.draw(), &l2_bits).unwrap_err(),
        VexError::DimensionMismatch { expected: 2, got: 1 }
    );
    assert!(idx.is_empty());
    idx.insert(&[1.0, 1.0], &|| levels.draw(), &l2_bits).unwrap();
    assert_eq!(
        idx.search(&[0.0, 0.0], 2, &l2_bits).unwrap_err(),
        VexError::NotEnoughPoints { requested: 2, available: 1 }
    );
    assert_eq!(
        idx.search(&[0.0], 1, &l2_bits).unwrap_err(),
        VexError::DimensionMismatch { expected: 2, got: 1 }
    );
}

#[test]
fn higher_level_node_becomes_entry_point() {
    let mut idx: HnswIndex<f32> = HnswIndex::new(1, Distance::L2, HnswParams::default());
    idx.insert_at_level(&[0.0], 0, &l2_bits).unwrap();
    idx.insert_at_level(&[1.0], 2, &l2_bits).unwrap();
    assert_eq!(idx.entry_point(), Some(1));
    assert_eq!(idx.max_level(), 2);
    idx.insert_at_level(&[2.0], 1, &l2_bits).unwrap();
    assert_eq!(idx.entry_point(), Some(1));
    assert_eq!(idx.levels(), &[0, 2, 1]);
    let nb = idx.neighbor_lists();
    assert_eq!(nb[1].len(), 3);
    assert_eq!(nb[2].len(), 2);
    assert_eq!(nb[2][1], vec![1]);
    assert_eq!(nb[2][0], vec![1, 0]);
}

#[test]
fn lists_are_pruned_to_the_degree_bound() {
    let params = HnswParams { m: 2, m_max0: 3, ef_construction: 10, ef_search: 10, seed: 1 };
    let mut idx: HnswIndex<f32> = HnswIndex::new(1, Distance::L2, params);
    for i in 0..20 {
        idx.insert_at_level(&[i as f32], 0, &l2_bits).unwrap();
    }
    for list in idx.neighbor_lists() {
        assert!(list[0].len() <= 3);
        let distinct: HashSet<u64> = list[0].iter().copied().collect();
        assert_eq!(distinct.len(), list[0].len());
    }
    let hits = idx.search(&[7.2], 3, &l2_bits).unwrap();
    assert_eq!(hits[0].id, 7);
    assert!(hits.len() <= 3);
}

#[test]
fn rebuilt_from_parts_searches_alike() {
    let params = HnswParams::default();
    let levels = Levels::new(&params);
    let mut idx: HnswIndex<f32> = HnswIndex::new(4, Distance::L2, params);
    idx.insert(&[1.0, 0.0, 0.0, 0.0], &|| levels.draw(), &l2_bits).unwrap();
    idx.insert(&[0.0, 1.0, 0.0, 0.0], &|| levels.draw(), &l2_bits).unwrap();
    idx.insert(&[0.0, 0.0, 1.0, 0.0], &|| levels.draw(), &l2_bits).unwrap();
    let copy = HnswIndex::from_parts(
        idx.dim(),
        idx.metric(),
        idx.params(),
        idx.as_row_buffer().to_vec(),
        idx.len(),
        idx.levels().to_vec(),
        idx.neighbor_lists().clone(),
        idx.entry_point(),
        idx.max_level(),
    )
    .unwrap();
    assert_eq!(copy.len(), 3);
    let hits = copy.search(&[0.9, 0.1, 0.0, 0.0], 1, &l2_bits).unwrap();
    assert_eq!(hits[0].id, 0);
}

#[test]
fn malformed_parts_are_refused() {
    let p = HnswParams::default();
    // A node listing itself.
    assert!(HnswIndex::<f32>::from_parts(1, Distance::L2, p, vec![0.0], 1, vec![0], vec![vec![vec![0]]], Some(0), 0)
        .is_none());
    // A neighbor that does not exist.
    assert!(HnswIndex::<f32>::from_parts(1, Distance::L2, p, vec![0.0], 1, vec![0], vec![vec![vec![5]]], Some(0), 0)
        .is_none());
    // An entry point below the top layer.
    assert!(HnswIndex::<f32>::from_parts(
        1,
        Distance::L2,
        p,
        vec![0.0, 1.0],
        2,
        vec![0, 1],
        vec![vec![vec![]], vec![vec![], vec![]]],
        Some(0),
        1
    )
    .is_none());
    // A well-formed two-node graph.
    assert!(HnswIndex::<f32>::from_parts(
        1,
        Distance::L2,
        p,
        vec![0.0, 1.0],
        2,
        vec![0, 1],
        vec![vec![vec![1]], vec![vec![0], vec![]]],
        Some(1),
        1
    )
    .is_some());
}

#[test]
fn default_params_are_the_recommended_ones() {
    let p = HnswParams::default();
    assert_eq!(p, HnswParams { m: 16, m_max0: 32, ef_construction: 200, ef_search: 50, seed: 0 });
}

#[test]
fn first_hit_has_no_closer_neighbor_on_the_base_layer() {
    let d = 16;
    let n = 300;
    let vecs = random_unit_vectors(n, d, 5);
    let params = HnswParams { m: 4, m_max0: 8, ef_construction: 16, ef_search: 4, seed: 3 };
    let levels = Levels::new(&params);
    let mut idx: HnswIndex<f32> = HnswIndex::new(d, Distance::L2, params);
    for v in &vecs {
        idx.insert(v, &|| levels.draw(), &l2_bits).unwrap();
    }
    let queries = random_unit_vectors(25, d, 77);
    for q in &queries {
        let hits = idx.search(q, 3, &l2_bits).unwrap();
        let best = hits[0];
        let best_d = f32::from_bits(best.distance);
        for &nb in &idx.neighbor_lists()[best.id as usize][0] {
            let row = &vecs[nb as usize];
            let d_nb = f32::from_bits(l2_bits(q, row));
            assert!(d_nb >= best_d, "neighbor {nb} at {d_nb} is closer than the first hit at {best_d}");
        }
    }
}

#[test]
fn every_later_node_is_linked_both_ways_on_the_layers_it_shares() {
    let d = 8;
    let vecs = random_unit_vectors(120, d, 11);
    let params = HnswParams { m: 3, m_max0: 6, ef_construction: 12, ef_search: 8, seed: 21 };
    let levels = Levels::new(&params);
    let mut idx: HnswIndex<f32> = HnswIndex::new(d, Distance::L2, params);
    for v in &vecs {
        let was_empty = idx.is_empty();
        let top_before = idx.max_level();
        let id = idx.insert(v, &|| levels.draw(), &l2_bits).unwrap() as usize;
        let level = idx.levels()[id];
        let shared = if level < top_before { level } else { top_before };
        let lists = &idx.neighbor_lists()[id];
        assert_eq!(lists.len(), level as usize + 1);
        if !was_empty {
            for y in 0..=shared as usize {
                assert!(!lists[y].is_empty(), "node {id} has no neighbor on layer {y}");
                let cap = if y == 0 { params.m_max0 } else { params.m };
                for &x in &lists[y] {
                    let back = &idx.neighbor_lists()[x as usize][y];
                    if !back.contains(&(id as u64)) {
                        assert_eq!(back.len(), cap, "node {x} dropped {id} from a short list");
                        let to_new = f32::from_bits(l2_bits(&vecs[x as usize], &vecs[id]));
                        for &w in back {
                            let to_kept = f32::from_bits(l2_bits(&vecs[x as usize], &vecs[w as usize]));
                            assert!(to_kept <= to_new, "node {x} kept {w} over the closer {id}");
                        }
                    }
                }
            }
        }
    }
}

#[test]
fn hnsw_search_with_k_zero_returns_nothing() {
    let params = HnswParams::default();
    let levels = Levels::new(&params);
    let mut idx: HnswIndex<f32> = HnswIndex::new(1, Distance::L2, params);
    idx.insert(&[1.0], &|| levels.draw(), &l2_bits).unwrap();
    idx.insert(&[2.0], &|| levels.draw(), &l2_bits).unwrap();
    let hits = idx.search(&[0.0], 0, &l2_bits).unwrap();
    assert!(hits.is_empty());
}

#[test]
fn quick_example_ranks_the_nearest_first() {
    let params = HnswParams::default();
    let levels = Levels::new(&params);
    let mut idx: HnswIndex<f32> = HnswIndex::new(4, Distance::L2, params);
    idx.insert(&[1.0, 0.0, 0.0, 0.0], &|| levels.draw(), &l2_bits).unwrap();
    idx.insert(&[0.0, 1.0, 0.0, 0.0], &|| levels.draw(), &l2_bits).unwrap();
    idx.insert(&[0.0, 0.0, 1.0, 0.0], &|| levels.draw(), &l2_bits).unwrap();
    idx.insert(&[0.0, 0.0, 0.0, 1.0], &|| levels.draw(), &l2_bits).unwrap();
    let hits = idx.search(&[0.9, 0.1, 0.0, 0.0], 2, &l2_bits).unwrap();
    assert_eq!(hits.len(), 2);
    assert_eq!(hits[0].id, 0);
    assert_eq!(hits[1].id, 1);
}

#[test]
fn small_graph_search_matches_the_flat_index() {
    let d = 8;
    let vecs = random_unit_vectors(17, d, 31);
    let params = HnswParams::default();
    let levels = Levels::new(&params);
    let mut flat: FlatIndex<f32> = FlatIndex::new(d, Distance::L2);
    let mut hnsw: HnswIndex<f32> = HnswIndex::new(d, Distance::L2, params);
    for v in &vecs {
        flat.insert(v).unwrap();
        hnsw.insert(v, &|| levels.draw(), &l2_bits).unwrap();
    }
    for q in &random_unit_vectors(10, d, 32) {
        for k in [1usize, 5, 17] {
            let a = flat.search(q, k, &l2_bits).unwrap();
            let b = hnsw.search(q, k, &l2_bits).unwrap();
            assert_eq!(a, b);
        }
    }
}

#[test]
fn search_returns_k_hits_on_a_sparse_graph() {
    let params = HnswParams { m: 1, m_max0: 1, ..HnswParams::default() };
    let levels = Levels::new(&params);
    let mut idx: HnswIndex<f32> = HnswIndex::new(1, Distance::L2, params);
    idx.insert(&[0.0], &|| levels.draw(), &l2_bits).unwrap();
    idx.insert(&[1.0], &|| levels.draw(), &l2_bits).unwrap();
    idx.insert(&[10.0], &|| levels.draw(), &l2_bits).unwrap();
    let hits = idx.search(&[10.0], 3, &l2_bits).unwrap();
    assert_eq!(hits.len(), 3);
    assert_eq!(hits[0].id, 2);
    assert_eq!(f32::from_bits(hits[0].distance), 0.0);
}
