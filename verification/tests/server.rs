//! The collection registry and the request decisions of the HTTP API.

use vex::distance::Distance;
use vex::error::VexError;
use vex::index::any::AnyIndex;
use vex::index::hnsw::HnswParams;
use vex::server::{
    collection_info, create_index, default_index_kind, default_k, default_metric, insert_points,
    ApiError, Collections, IndexKind,
};

fn l2_bits(a: &[f32], b: &[f32]) -> u32 {
    let mut sum = 0.0f32;
    for i in 0..a.len() {
        let d = a[i] - b[i];
        sum += d * d;
    }
    sum.to_bits()
}

#[test]
fn defaults_are_cosine_flat_and_ten() {
    assert_eq!(default_metric(), Distance::Cosine);
    assert_eq!(default_index_kind(), IndexKind::Flat);
    assert_eq!(default_k(), 10);
}

#[test]
fn cannot_create_same_collection_twice() {
    let mut reg: Collections<u32> = Collections::new();
    assert!(reg.create("test".to_string(), 1).is_ok());
    let err = reg.create("test".to_string(), 2).unwrap_err();
    assert_eq!(err, ApiError::Conflict("test".to_string()));
    assert_eq!(err.status(), 409);
    assert_eq!(*reg.get("test").unwrap(), 1);
    assert_eq!(reg.len(), 1);
}

#[test]
fn dropped_collection_is_not_found() {
    let mut reg: Collections<u32> = Collections::new();
    reg.create("a".to_string(), 1).unwrap();
    reg.create("b".to_string(), 2).unwrap();
    assert_eq!(reg.remove("a").unwrap(), 1);
    let err = reg.get("a").unwrap_err();
    assert_eq!(err, ApiError::NotFound("a".to_string()));
    assert_eq!(err.status(), 404);
    assert_eq!(reg.remove("a").unwrap_err().status(), 404);
    assert_eq!(*reg.get("b").unwrap(), 2);
}

#[test]
fn listing_is_sorted_by_name() {
    let mut reg: Collections<u32> = Collections::new();
    for (i, name) in ["zeta", "alpha", "mu", "alphabet", "Beta", "é"].iter().enumerate() {
        reg.create(name.to_string(), i as u32).unwrap();
    }
    let names: Vec<String> = reg.sorted_positions().iter().map(|&i| reg.name_at(i).clone()).collect();
    let mut expected: Vec<String> = names.clone();
    expected.sort();
    assert_eq!(names, expected);
    assert_eq!(names, vec!["Beta", "alpha", "alphabet", "mu", "zeta", "é"]);
}

#[test]
fn load_replaces_a_collection_in_place() {
    let mut reg: Collections<u32> = Collections::new();
    reg.create("a".to_string(), 1).unwrap();
    reg.create("b".to_string(), 2).unwrap();
    reg.put("a".to_string(), 7);
    reg.put("c".to_string(), 3);
    assert_eq!(*reg.value_at(0), 7);
    assert_eq!(reg.name_at(2), "c");
    assert_eq!(reg.len(), 3);
    assert_eq!(*reg.get("a").unwrap(), 7);
    assert_eq!(*reg.get("c").unwrap(), 3);
}

#[test]
fn full_lifecycle_flat_index() {
    let mut reg: Collections<AnyIndex<f32>> = Collections::new();
    let idx: AnyIndex<f32> = create_index(3, Distance::L2, IndexKind::Flat, None);
    reg.create("test".to_string(), idx).unwrap();

    let pos = reg.find("test").unwrap();
    let vectors = vec![vec![1.0, 0.0, 0.0], vec![0.0, 1.0, 0.0], vec![0.0, 0.0, 1.0]];
    let ids = insert_points(reg.value_at_mut(pos), &vectors, &|| 0u8, &l2_bits).unwrap();
    assert_eq!(ids, vec![0, 1, 2]);

    let info = collection_info(reg.name_at(pos), reg.value_at(pos));
    assert_eq!(info.name, "test");
    assert_eq!(info.dim, 3);
    assert_eq!(info.size, 3);

    let hits = reg.get("test").unwrap().search(&[0.9, 0.1, 0.0], 2, &l2_bits).unwrap();
    assert_eq!(hits.len(), 2);
    assert_eq!(hits[0].id, 0);

    let bad = insert_points(reg.value_at_mut(pos), &[vec![1.0]], &|| 0u8, &l2_bits).unwrap_err();
    assert_eq!(bad, VexError::DimensionMismatch { expected: 3, got: 1 });
    assert_eq!(ApiError::BadRequest(bad).status(), 400);

    reg.remove("test").unwrap();
    assert!(reg.get("test").is_err());
}

#[test]
fn hnsw_index_path_works() {
    let idx: AnyIndex<f32> = create_index(2, Distance::L2, IndexKind::Hnsw, None);
    let mut idx = idx;
    match &idx {
        AnyIndex::Hnsw(h) => assert_eq!(h.params(), HnswParams::default()),
        AnyIndex::Flat(_) => panic!("expected an HNSW index"),
    }
    let ids = insert_points(&mut idx, &[vec![0.0, 0.0], vec![1.0, 1.0], vec![5.0, 5.0]], &|| 0u8, &l2_bits).unwrap();
    assert_eq!(ids, vec![0, 1, 2]);
    let hits = idx.search(&[4.9, 5.1], 1, &l2_bits).unwrap();
    assert_eq!(hits[0].id, 2);
    let hits = idx.search(&[0.9, 1.1], 3, &l2_bits).unwrap();
    let ids: Vec<u64> = hits.iter().map(|h| h.id).collect();
    assert_eq!(ids, vec![1, 0, 2]);
}

#[test]
fn insert_points_keeps_vectors_before_a_bad_one() {
    let mut idx: AnyIndex<f32> = create_index(2, Distance::L2, IndexKind::Flat, None);
    let err = insert_points(&mut idx, &[vec![1.0, 2.0], vec![1.0, 2.0, 3.0]], &|| 0u8, &l2_bits).unwrap_err();
    assert_eq!(err, VexError::DimensionMismatch { expected: 2, got: 3 });
    assert_eq!(idx.len(), 1);
    assert!(!idx.is_empty());
    assert_eq!(idx.dim(), 2);
}
