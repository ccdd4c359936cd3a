//! The floating-point order on bit patterns, and top-k selection.

use vex::ieee::{is_nan, is_zero, lt, order_key, rank};
use vex::index::topk::select_top_k;

fn samples() -> Vec<f32> {
    vec![
        f32::NEG_INFINITY,
        f32::MIN,
        -1.5,
        -1.0,
        -f32::MIN_POSITIVE,
        -1e-45,
        -0.0,
        0.0,
        1e-45,
        f32::MIN_POSITIVE,
        0.25,
        1.0,
        2.0,
        f32::MAX,
        f32::INFINITY,
    ]
}

#[test]
fn lt_is_ieee_less_than() {
    let mut all = samples();
    all.push(f32::NAN);
    all.push(-f32::NAN);
    for &a in &all {
        for &b in &all {
            assert_eq!(lt(a.to_bits(), b.to_bits()), a < b, "{a} < {b}");
        }
    }
}

#[test]
fn rank_orders_like_the_values() {
    let all = samples();
    for &a in &all {
        for &b in &all {
            let ra = rank(a.to_bits());
            let rb = rank(b.to_bits());
            assert_eq!(ra < rb, a < b, "{a} vs {b}");
            assert_eq!(ra == rb, a == b, "{a} vs {b}");
        }
    }
}

#[test]
fn order_key_is_the_total_order() {
    let all = samples();
    for w in all.windows(2) {
        assert!(order_key(w[0].to_bits()) < order_key(w[1].to_bits()));
    }
    assert_eq!(order_key((-0.0f32).to_bits()), 0x7fff_ffff);
    assert_eq!(order_key(0.0f32.to_bits()), 0x8000_0000);
    assert_eq!(order_key(1.0f32.to_bits()), 0xbf80_0000);
}

#[test]
fn nan_and_zero_are_recognized() {
    assert!(is_nan(f32::NAN.to_bits()));
    assert!(!is_nan(f32::INFINITY.to_bits()));
    assert!(is_zero((-0.0f32).to_bits()));
    assert!(is_zero(0.0f32.to_bits()));
    assert!(!is_zero(1e-45f32.to_bits()));
}

#[test]
fn top_k_keeps_the_smallest_in_order() {
    let ds: Vec<u32> = [3.0f32, 1.0, 2.0, 1.0, 0.5].iter().map(|x| x.to_bits()).collect();
    let out = select_top_k(&ds, 3);
    let ids: Vec<u64> = out.iter().map(|h| h.id).collect();
    assert_eq!(ids, vec![4, 1, 3]);
    assert_eq!(out[0].distance, 0.5f32.to_bits());
    let none = select_top_k(&ds, 0);
    assert!(none.is_empty());
    let all = select_top_k(&ds, 5);
    let ids: Vec<u64> = all.iter().map(|h| h.id).collect();
    assert_eq!(ids, vec![4, 1, 3, 2, 0]);
}

#[test]
fn top_k_treats_both_zeros_as_equal() {
    let ds: Vec<u32> = [0.0f32, -0.0, -1.0].iter().map(|x| x.to_bits()).collect();
    let out = select_top_k(&ds, 3);
    let ids: Vec<u64> = out.iter().map(|h| h.id).collect();
    assert_eq!(ids, vec![2, 0, 1]);
}
