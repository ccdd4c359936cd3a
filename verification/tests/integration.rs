//! End-to-end correctness of the flat index through the public API.

use rand::rngs::StdRng;
use rand::Rng;
use rand::SeedableRng;
use vex::{Distance, FlatIndex};

fn random_unit_vectors(n: usize, d: usize, seed: u64) -> Vec<Vec<f32>> {
    let mut rng = StdRng::seed_from_u64(seed);
    (0..n)
        .map(|_| {
            let v: Vec<f32> = (0..d).map(|_| rng.gen_range(-1.0..1.0)).collect();
            let norm = v.iter().map(|x| x * x).sum::<f32>().sqrt();
            v.into_iter().map(|x| x / norm.max(1e-12)).collect()
        })
        .collect()
}

fn l2_bits(a: &[f32], b: &[f32]) -> u32 {
    let mut sum = 0.0f32;
    for i in 0..a.len() {
        let d = a[i] - b[i];
        sum += d * d;
    }
    sum.to_bits()
}

fn cosine_bits(a: &[f32], b: &[f32]) -> u32 {
    let (mut dot_ab, mut norm_a, mut norm_b) = (0.0f32, 0.0f32, 0.0f32);
    for i in 0..a.len() {
        dot_ab += a[i] * b[i];
        norm_a += a[i] * a[i];
        norm_b += b[i] * b[i];
    }
    let denom = (norm_a * norm_b).sqrt();
    if denom == 0.0 {
        return 0.0f32.to_bits();
    }
    (1.0 - dot_ab / denom).to_bits()
}

#[test]
fn flat_index_round_trip_1000_vectors_128d() {
    let vectors = random_unit_vectors(1000, 128, 42);
    let mut idx: FlatIndex<f32> = FlatIndex::with_capacity(128, Distance::L2, 1000);
    let ids = idx.insert_many(&vectors).unwrap();

    assert_eq!(ids.len(), 1000);
    assert_eq!(idx.len(), 1000);

    for (i, v) in vectors.iter().enumerate() {
        let hits = idx.search(v, 1, &l2_bits).unwrap();
        assert_eq!(hits[0].id as usize, i, "self-query failed for id {i}");
        assert!(f32::from_bits(hits[0].distance) < 1e-6, "self-distance not ~0 for id {i}");
    }
}

#[test]
fn flat_index_cosine_top_k_matches_known_answer() {
    let mut idx: FlatIndex<f32> = FlatIndex::new(3, Distance::Cosine);
    idx.insert(&[1.0, 0.0, 0.0]).unwrap();
    idx.insert(&[1.0, 0.1, 0.0]).unwrap();
    idx.insert(&[1.0, 1.0, 0.0]).unwrap();
    idx.insert(&[0.0, 0.0, 1.0]).unwrap();

    let hits = idx.search(&[1.0, 0.0, 0.0], 4, &cosine_bits).unwrap();
    assert_eq!(hits[0].id, 0);
    assert_eq!(hits[1].id, 1);
    assert_eq!(hits[2].id, 2);
    assert_eq!(hits[3].id, 3);
}

#[test]
fn get_returns_stored_vector() {
    let mut idx: FlatIndex<f32> = FlatIndex::new(3, Distance::L2);
    let id = idx.insert(&[1.0, 2.0, 3.0]).unwrap();
    let v = idx.get(id).unwrap();
    assert_eq!(v, &[1.0, 2.0, 3.0]);
}

#[test]
fn readme_quick_example_nearest_is_first() {
    let mut idx: FlatIndex<f32> = FlatIndex::new(4, Distance::L2);
    idx.insert(&[1.0, 0.0, 0.0, 0.0]).unwrap();
    idx.insert(&[0.0, 1.0, 0.0, 0.0]).unwrap();
    idx.insert(&[0.0, 0.0, 1.0, 0.0]).unwrap();
    let hits = idx.search(&[0.9, 0.1, 0.0, 0.0], 2, &l2_bits).unwrap();
    assert_eq!(hits[0].id, 0);
}

#[test]
fn full_search_lists_every_vector_once() {
    let vectors = random_unit_vectors(50, 8, 7);
    let mut idx: FlatIndex<f32> = FlatIndex::new(8, Distance::Cosine);
    idx.insert_many(&vectors).unwrap();
    let hits = idx.search(&vectors[3], 50, &cosine_bits).unwrap();
    let mut ids: Vec<u64> = hits.iter().map(|h| h.id).collect();
    for w in hits.windows(2) {
        assert!(f32::from_bits(w[0].distance) <= f32::from_bits(w[1].distance));
    }
    ids.sort();
    assert_eq!(ids, (0..50).collect::<Vec<u64>>());
}
