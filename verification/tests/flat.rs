//! Flat index: exact search, errors, IDs.

use vex::distance::Distance;
use vex::error::VexError;
use vex::index::flat::FlatIndex;

fn dot(a: &[f32], b: &[f32]) -> f32 {
    let mut sum = 0.0;
    for i in 0..a.len() {
        sum += a[i] * b[i];
    }
    sum
}

fn l2_squared(a: &[f32], b: &[f32]) -> f32 {
    let mut sum = 0.0;
    for i in 0..a.len() {
        let d = a[i] - b[i];
        sum += d * d;
    }
    sum
}

fn cosine_distance(a: &[f32], b: &[f32]) -> f32 {
    let (mut dot_ab, mut norm_a, mut norm_b) = (0.0f32, 0.0f32, 0.0f32);
    for i in 0..a.len() {
        dot_ab += a[i] * b[i];
        norm_a += a[i] * a[i];
        norm_b += b[i] * b[i];
    }
    let denom = (norm_a * norm_b).sqrt();
    if denom == 0.0 {
        return 0.0;
    }
    1.0 - dot_ab / denom
}

/// The metric oracle: the bit pattern of the `f32` distance.
fn oracle(metric: Distance) -> impl Fn(&[f32], &[f32]) -> u32 {
    move |a: &[f32], b: &[f32]| {
        let d = match metric {
            Distance::Cosine => cosine_distance(a, b),
            Distance::L2 => l2_squared(a, b),
            Distance::DotProduct => -dot(a, b),
        };
        d.to_bits()
    }
}

#[test]
fn empty_index_errors_on_search() {
    let idx: FlatIndex<f32> = FlatIndex::new(3, Distance::L2);
    let err = idx.search(&[0.0, 0.0, 0.0], 1, &oracle(Distance::L2)).unwrap_err();
    assert!(matches!(err, VexError::EmptyIndex));
}

#[test]
fn dim_mismatch_errors_on_insert() {
    let mut idx: FlatIndex<f32> = FlatIndex::new(3, Distance::L2);
    let err = idx.insert(&[1.0, 2.0]).unwrap_err();
    assert!(matches!(
        err,
        VexError::DimensionMismatch {
            expected: 3,
            got: 2
        }
    ));
}

#[test]
fn nearest_neighbor_in_3d() {
    let mut idx: FlatIndex<f32> = FlatIndex::new(3, Distance::L2);
    idx.insert(&[1.0, 0.0, 0.0]).unwrap();
    idx.insert(&[0.0, 1.0, 0.0]).unwrap();
    idx.insert(&[0.0, 0.0, 1.0]).unwrap();

    let hits = idx.search(&[0.9, 0.1, 0.0], 2, &oracle(Distance::L2)).unwrap();
    assert_eq!(hits.len(), 2);
    assert_eq!(hits[0].id, 0);
    assert!(f32::from_bits(hits[0].distance) < f32::from_bits(hits[1].distance));
}

#[test]
fn cosine_distance_ranks_correctly() {
    let mut idx: FlatIndex<f32> = FlatIndex::new(2, Distance::Cosine);
    idx.insert(&[1.0, 0.0]).unwrap();
    idx.insert(&[0.0, 1.0]).unwrap();
    idx.insert(&[1.0, 1.0]).unwrap();

    let hits = idx.search(&[1.0, 0.0], 3, &oracle(Distance::Cosine)).unwrap();
    assert_eq!(hits[0].id, 0);
    assert_eq!(hits[1].id, 2);
    assert_eq!(hits[2].id, 1);
    assert!((f32::from_bits(hits[0].distance) - 0.0).abs() <= 1e-6);
}

#[test]
fn dot_product_ranks_largest_inner_product_first() {
    let mut idx: FlatIndex<f32> = FlatIndex::new(2, Distance::DotProduct);
    idx.insert(&[1.0, 0.0]).unwrap();
    idx.insert(&[2.0, 0.0]).unwrap();
    idx.insert(&[3.0, 0.0]).unwrap();

    let hits = idx.search(&[1.0, 0.0], 3, &oracle(Distance::DotProduct)).unwrap();
    assert_eq!(hits[0].id, 2);
    assert_eq!(hits[1].id, 1);
    assert_eq!(hits[2].id, 0);
}

#[test]
fn insert_many_assigns_sequential_ids() {
    let mut idx: FlatIndex<f32> = FlatIndex::new(2, Distance::L2);
    let vs = vec![vec![1.0, 2.0], vec![3.0, 4.0], vec![5.0, 6.0]];
    let ids = idx.insert_many(&vs).unwrap();
    assert_eq!(ids, vec![0, 1, 2]);
    assert_eq!(idx.len(), 3);
}

#[test]
fn requesting_too_many_neighbors_errors() {
    let mut idx: FlatIndex<f32> = FlatIndex::new(2, Distance::L2);
    idx.insert(&[0.0, 0.0]).unwrap();
    let err = idx.search(&[1.0, 1.0], 5, &oracle(Distance::L2)).unwrap_err();
    assert!(matches!(
        err,
        VexError::NotEnoughPoints {
            requested: 5,
            available: 1
        }
    ));
}

#[test]
fn search_checks_dimension_before_emptiness() {
    let idx: FlatIndex<f32> = FlatIndex::new(3, Distance::L2);
    let err = idx.search(&[0.0, 0.0], 1, &oracle(Distance::L2)).unwrap_err();
    assert_eq!(err, VexError::DimensionMismatch { expected: 3, got: 2 });
}

#[test]
fn failed_insert_leaves_index_unchanged() {
    let mut idx: FlatIndex<f32> = FlatIndex::new(2, Distance::L2);
    idx.insert(&[1.0, 2.0]).unwrap();
    assert!(idx.insert(&[1.0, 2.0, 3.0]).is_err());
    assert_eq!(idx.len(), 1);
    assert_eq!(idx.get(0).unwrap(), &[1.0, 2.0]);
    assert!(idx.get(1).is_none());
    assert_eq!(idx.insert(&[3.0, 4.0]).unwrap(), 1);
}

#[test]
fn insert_many_stops_at_first_bad_vector() {
    let mut idx: FlatIndex<f32> = FlatIndex::new(2, Distance::L2);
    let vs = vec![vec![1.0, 2.0], vec![3.0], vec![5.0, 6.0]];
    let err = idx.insert_many(&vs).unwrap_err();
    assert_eq!(err, VexError::DimensionMismatch { expected: 2, got: 1 });
    assert_eq!(idx.len(), 1);
    assert_eq!(idx.get(0).unwrap(), &[1.0, 2.0]);
}

#[test]
fn equal_distances_are_listed_by_id() {
    let mut idx: FlatIndex<f32> = FlatIndex::new(1, Distance::L2);
    idx.insert(&[1.0]).unwrap();
    idx.insert(&[-1.0]).unwrap();
    idx.insert(&[1.0]).unwrap();
    idx.insert(&[5.0]).unwrap();
    let hits = idx.search(&[0.0], 3, &oracle(Distance::L2)).unwrap();
    let ids: Vec<u64> = hits.iter().map(|h| h.id).collect();
    assert_eq!(ids, vec![0, 1, 2]);
}

#[test]
fn rebuilt_from_parts_holds_the_same_vectors() {
    let mut idx: FlatIndex<f32> = FlatIndex::with_capacity(2, Distance::Cosine, 4);
    idx.insert(&[1.0, 2.0]).unwrap();
    idx.insert(&[3.0, 4.0]).unwrap();
    let copy = FlatIndex::from_parts(idx.dim(), idx.metric(), idx.as_row_buffer().to_vec(), idx.len()).unwrap();
    assert_eq!(copy.len(), 2);
    assert_eq!(copy.metric(), Distance::Cosine);
    assert_eq!(copy.get(1).unwrap(), &[3.0, 4.0]);
    assert!(FlatIndex::<f32>::from_parts(2, Distance::L2, vec![1.0, 2.0, 3.0], 2).is_none());
}

#[test]
fn is_empty_tracks_insertions() {
    let mut idx: FlatIndex<f32> = FlatIndex::new(1, Distance::L2);
    assert!(idx.is_empty());
    idx.insert(&[1.0]).unwrap();
    assert!(!idx.is_empty());
    assert_eq!(idx.dim(), 1);
}

#[test]
fn search_with_k_zero_returns_nothing() {
    let mut idx: FlatIndex<f32> = FlatIndex::new(2, Distance::L2);
    assert_eq!(idx.insert(&[0.0, 0.0]).unwrap(), 0);
    let hits = idx.search(&[1.0, 1.0], 0, &oracle(Distance::L2)).unwrap();
    assert!(hits.is_empty());
}
