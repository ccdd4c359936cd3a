//! The file header: framing and checking, and indices saved in a frame.

use std::cell::RefCell;

use rand::rngs::StdRng;
use rand::Rng;
use rand::SeedableRng;
use vex::distance::Distance;
use vex::index::flat::FlatIndex;
use vex::index::hnsw::{HnswIndex, HnswParams};
use vex::storage::{check_header, frame, header, FormatError, HEADER_LEN, VERSION};

fn l2_bits(a: &[f32], b: &[f32]) -> u32 {
    let mut sum = 0.0f32;
    for i in 0..a.len() {
        let d = a[i] - b[i];
        sum += d * d;
    }
    sum.to_bits()
}

/// Level sampling as the server does it: `floor(-ln(U) / ln(m))`.
struct Levels {
    rng: RefCell<StdRng>,
    m_l: f64,
}

impl Levels {
    fn new(params: &HnswParams) -> Self {
        Levels { rng: RefCell::new(StdRng::seed_from_u64(params.seed)), m_l: 1.0 / (params.m as f64).ln() }
    }

    fn draw(&self) -> u8 {
        let u: f64 = self.rng.borrow_mut().gen_range(f64::EPSILON..1.0);
        let l = (-u.ln() * self.m_l).floor() as i64;
        l.max(0).min(u8::MAX as i64) as u8
    }
}

#[test]
fn header_is_magic_then_version() {
    assert_eq!(header(), b"VEXF\x01\x00".to_vec());
    assert_eq!(VERSION, 1);
}

#[test]
fn framed_payload_reads_back() {
    let payload = vec![9u8, 8, 7, 6, 5];
    let file = frame(&payload);
    assert_eq!(file.len(), HEADER_LEN + payload.len());
    let start = check_header(&file).unwrap();
    assert_eq!(start, 6);
    assert_eq!(&file[start..], &payload[..]);
}

#[test]
fn bad_magic_is_detected() {
    assert_eq!(check_header(b"NOTVEX_garbage"), Err(FormatError::BadMagic));
}

#[test]
fn short_files_are_truncated() {
    assert_eq!(check_header(b"VE"), Err(FormatError::Truncated));
    assert_eq!(check_header(b"VEXF\x01"), Err(FormatError::Truncated));
    assert_eq!(check_header(b"XEX"), Err(FormatError::Truncated));
}

#[test]
fn other_versions_are_refused() {
    assert_eq!(
        check_header(b"VEXF\x02\x01rest"),
        Err(FormatError::UnsupportedVersion { got: 258, expected: 1 })
    );
}

type FlatParts = (usize, Vec<f32>, usize);

#[test]
fn flat_index_round_trip() {
    let mut idx: FlatIndex<f32> = FlatIndex::new(3, Distance::L2);
    idx.insert(&[1.0, 2.0, 3.0]).unwrap();
    idx.insert(&[4.0, 5.0, 6.0]).unwrap();

    let parts: FlatParts = (idx.dim(), idx.as_row_buffer().to_vec(), idx.len());
    let file = frame(&bincode::serialize(&parts).unwrap());

    let start = check_header(&file).unwrap();
    let (dim, data, n): FlatParts = bincode::deserialize(&file[start..]).unwrap();
    let f = FlatIndex::from_parts(dim, Distance::L2, data, n).expect("expected Flat");
    assert_eq!(f.len(), 2);
    let hits = f.search(&[1.0, 2.0, 3.0], 1, &l2_bits).unwrap();
    assert_eq!(hits[0].id, 0);
}

type HnswParts = (usize, (usize, usize, usize, usize, u64), Vec<f32>, usize, Vec<u8>, Vec<Vec<Vec<u64>>>, Option<u64>, u8);

#[test]
fn hnsw_index_round_trip() {
    let params = HnswParams::default();
    let levels = Levels::new(&params);
    let mut idx: HnswIndex<f32> = HnswIndex::new(4, Distance::L2, params);
    idx.insert(&[1.0, 0.0, 0.0, 0.0], &|| levels.draw(), &l2_bits).unwrap();
    idx.insert(&[0.0, 1.0, 0.0, 0.0], &|| levels.draw(), &l2_bits).unwrap();
    idx.insert(&[0.0, 0.0, 1.0, 0.0], &|| levels.draw(), &l2_bits).unwrap();

    let p = idx.params();
    let parts: HnswParts = (
        idx.dim(),
        (p.m, p.m_max0, p.ef_construction, p.ef_search, p.seed),
        idx.as_row_buffer().to_vec(),
        idx.len(),
        idx.levels().to_vec(),
        idx.neighbor_lists().clone(),
        idx.entry_point(),
        idx.max_level(),
    );
    let file = frame(&bincode::serialize(&parts).unwrap());

    let start = check_header(&file).unwrap();
    let (dim, (m, m_max0, ef_construction, ef_search, seed), data, n, lv, nb, ep, top): HnswParts =
        bincode::deserialize(&file[start..]).unwrap();
    let params = HnswParams { m, m_max0, ef_construction, ef_search, seed };
    let h = HnswIndex::from_parts(dim, Distance::L2, params, data, n, lv, nb, ep, top).expect("expected Hnsw");
    assert_eq!(h.len(), 3);
    let hits = h.search(&[0.9, 0.1, 0.0, 0.0], 1, &l2_bits).unwrap();
    assert_eq!(hits[0].id, 0);
}
