use rainze_core::codec::{FORMAT_MAGIC, FORMAT_VERSION, HEADER_LEN};
use rainze_core::error::{CorruptKind, IndexError};
use rainze_core::index::VectorIndex;
use rainze_core::ranking::{score_key, top_k};

fn bits(v: &[f32]) -> Vec<u32> {
    v.iter().map(|x| x.to_bits()).collect()
}

fn dot(a: &[u32], b: &[u32]) -> f32 {
    a.iter()
        .zip(b.iter())
        .map(|(x, y)| f32::from_bits(*x) * f32::from_bits(*y))
        .sum()
}

fn scores_for(index: &VectorIndex, query: &[u32]) -> Vec<u32> {
    let n = index.ntotal() as usize;
    (0..n)
        .map(|id| dot(index.vector(id).unwrap(), query).to_bits())
        .collect()
}

fn sample() -> VectorIndex {
    let mut index = VectorIndex::new(2).unwrap();
    index
        .add_vectors(vec![bits(&[1.0, 0.0]), bits(&[0.0, 1.0]), bits(&[0.9, 0.1])])
        .unwrap();
    index
}

#[test]
fn new_index_is_empty_with_its_dimension() {
    for d in [1u32, 2, 768] {
        let index = VectorIndex::new(d).unwrap();
        assert_eq!(index.ntotal(), 0);
        assert_eq!(index.dimension(), d);
    }
}

#[test]
fn new_rejects_zero_dimension() {
    assert_eq!(
        VectorIndex::new(0).err(),
        Some(IndexError::Construction { dimension: 0 })
    );
}

#[test]
fn add_vectors_returns_contiguous_ids() {
    let mut index = VectorIndex::new(3).unwrap();
    let ids = index
        .add_vectors(vec![bits(&[1.0, 2.0, 3.0]), bits(&[4.0, 5.0, 6.0])])
        .unwrap();
    assert_eq!(ids, vec![0, 1]);
    assert_eq!(index.ntotal(), 2);
    let ids = index
        .add_vectors(vec![bits(&[0.0; 3]), bits(&[1.0; 3]), bits(&[2.0; 3])])
        .unwrap();
    assert_eq!(ids, vec![2, 3, 4]);
    assert_eq!(index.ntotal(), 5);
    assert_eq!(index.vector(3).unwrap(), &bits(&[1.0; 3]));
    assert!(index.vector(5).is_none());
}

#[test]
fn add_empty_batch_changes_nothing() {
    let mut index = sample();
    assert_eq!(index.add_vectors(vec![]).unwrap(), Vec::<i64>::new());
    assert_eq!(index.ntotal(), 3);
}

#[test]
fn add_vectors_mismatch_adds_nothing() {
    let mut index = sample();
    let err = index
        .add_vectors(vec![bits(&[1.0, 1.0]), bits(&[1.0, 2.0, 3.0]), bits(&[1.0])])
        .unwrap_err();
    assert_eq!(
        err,
        IndexError::DimensionMismatch { index: Some(1), got: 3, expected: 2 }
    );
    assert_eq!(index.ntotal(), 3);
    assert!(index.vector(3).is_none());
}

#[test]
fn search_ranks_by_inner_product() {
    let index = sample();
    let query = bits(&[1.0, 0.0]);
    let scores = scores_for(&index, &query);
    let hits = index.search(&query, &scores, 2).unwrap();
    let ids: Vec<i64> = hits.iter().map(|h| h.0).collect();
    assert_eq!(ids, vec![0, 2]);
    assert_eq!(f32::from_bits(hits[0].1), 1.0);
    assert_eq!(f32::from_bits(hits[1].1), 0.9);
}

#[test]
fn search_with_k_above_count_returns_every_vector() {
    let index = sample();
    let query = bits(&[1.0, 0.0]);
    let scores = scores_for(&index, &query);
    let hits = index.search(&query, &scores, 10).unwrap();
    let ids: Vec<i64> = hits.iter().map(|h| h.0).collect();
    assert_eq!(ids, vec![0, 2, 1]);
    assert_eq!(f32::from_bits(hits[2].1), 0.0);
}

#[test]
fn search_with_k_zero_or_empty_index_is_empty() {
    let index = sample();
    let query = bits(&[1.0, 0.0]);
    let scores = scores_for(&index, &query);
    assert!(index.search(&query, &scores, 0).unwrap().is_empty());
    let empty = VectorIndex::new(2).unwrap();
    assert!(empty.search(&query, &vec![], 5).unwrap().is_empty());
}

#[test]
fn search_ties_go_to_lower_id() {
    let mut index = VectorIndex::new(1).unwrap();
    index
        .add_vectors(vec![bits(&[1.0]), bits(&[2.0]), bits(&[1.0]), bits(&[2.0]), bits(&[-0.0])])
        .unwrap();
    let query = bits(&[1.0]);
    let scores = scores_for(&index, &query);
    let hits = index.search(&query, &scores, 5).unwrap();
    let ids: Vec<i64> = hits.iter().map(|h| h.0).collect();
    assert_eq!(ids, vec![1, 3, 0, 2, 4]);
}

#[test]
fn search_ranks_negative_scores_last() {
    let mut index = VectorIndex::new(1).unwrap();
    index
        .add_vectors(vec![bits(&[-3.0]), bits(&[0.5]), bits(&[-0.25]), bits(&[0.0])])
        .unwrap();
    let query = bits(&[1.0]);
    let scores = scores_for(&index, &query);
    let hits = index.search(&query, &scores, 4).unwrap();
    let ids: Vec<i64> = hits.iter().map(|h| h.0).collect();
    assert_eq!(ids, vec![1, 3, 2, 0]);
}

#[test]
fn search_rejects_wrong_query_length() {
    let index = sample();
    let query = bits(&[1.0, 0.0, 0.0]);
    let scores = vec![0u32; 3];
    assert_eq!(
        index.search(&query, &scores, 2).unwrap_err(),
        IndexError::DimensionMismatch { index: None, got: 3, expected: 2 }
    );
    assert!(index.check_query(&bits(&[0.0, 1.0])).is_ok());
}

#[test]
fn score_key_orders_as_floats() {
    assert_eq!(score_key(0.0f32.to_bits()), 0x8000_0000);
    assert_eq!(score_key((-0.0f32).to_bits()), 0x8000_0000);
    assert_eq!(score_key(1.0f32.to_bits()), 0x8000_0000 + 0x3f80_0000);
    assert_eq!(score_key((-1.0f32).to_bits()), 0x8000_0000 - 0x3f80_0000);
    let values = [f32::NEG_INFINITY, -2.5, -1.0, -1e-30, 0.0, 1e-30, 0.9, 1.0, 3.0, f32::INFINITY];
    for w in values.windows(2) {
        assert!(score_key(w[0].to_bits()) < score_key(w[1].to_bits()));
    }
}

#[test]
fn top_k_lists_best_positions_first() {
    let scores = bits(&[0.5, 2.0, 0.5, -1.0, 2.0]);
    assert_eq!(top_k(&scores, 3), vec![1, 4, 0]);
    assert_eq!(top_k(&scores, 9), vec![1, 4, 0, 2, 3]);
    assert_eq!(top_k(&scores, 0), Vec::<usize>::new());
}

#[test]
fn to_bytes_writes_header_then_entries() {
    let mut index = VectorIndex::new(2).unwrap();
    index.add_vectors(vec![vec![0x0403_0201, 0x0807_0605]]).unwrap();
    let b = index.to_bytes();
    let mut expected = Vec::new();
    expected.extend_from_slice(&FORMAT_MAGIC.to_le_bytes());
    expected.extend_from_slice(&FORMAT_VERSION.to_le_bytes());
    expected.extend_from_slice(&2u32.to_le_bytes());
    expected.extend_from_slice(&1u64.to_le_bytes());
    expected.extend_from_slice(&[1, 2, 3, 4, 5, 6, 7, 8]);
    assert_eq!(b, expected);
    assert_eq!(&b[0..4], b"VIFX");
    assert_eq!(b.len(), HEADER_LEN + 8);
}

#[test]
fn bytes_round_trip() {
    let index = sample();
    let restored = VectorIndex::from_bytes(&index.to_bytes()).unwrap();
    assert_eq!(restored.dimension(), 2);
    assert_eq!(restored.ntotal(), 3);
    for id in 0..3 {
        assert_eq!(restored.vector(id).unwrap(), index.vector(id).unwrap());
    }
    let odd = vec![f32::NAN.to_bits(), (-0.0f32).to_bits()];
    let mut special = VectorIndex::new(2).unwrap();
    special.add_vectors(vec![odd.clone()]).unwrap();
    let back = VectorIndex::from_bytes(&special.to_bytes()).unwrap();
    assert_eq!(back.vector(0).unwrap(), &odd);
    let empty = VectorIndex::new(7).unwrap();
    let back = VectorIndex::from_bytes(&empty.to_bytes()).unwrap();
    assert_eq!(back.dimension(), 7);
    assert_eq!(back.ntotal(), 0);
}

fn corrupt(b: &[u8]) -> Option<CorruptKind> {
    match VectorIndex::from_bytes(&b.to_vec()) {
        Err(IndexError::CorruptData { kind }) => Some(kind),
        _ => None,
    }
}

#[test]
fn from_bytes_names_the_failed_check() {
    let good = sample().to_bytes();
    assert_eq!(corrupt(&good[..10]), Some(CorruptKind::Truncated));
    let mut b = good.clone();
    b[0] ^= 1;
    assert_eq!(corrupt(&b), Some(CorruptKind::BadMagic));
    let mut b = good.clone();
    b[4] = 2;
    assert_eq!(corrupt(&b), Some(CorruptKind::BadVersion));
    let mut b = good.clone();
    b[8..12].copy_from_slice(&0u32.to_le_bytes());
    assert_eq!(corrupt(&b), Some(CorruptKind::ZeroDimension));
    assert_eq!(corrupt(&good[..good.len() - 1]), Some(CorruptKind::SizeMismatch));
    let mut b = good.clone();
    b[12..20].copy_from_slice(&4u64.to_le_bytes());
    assert_eq!(corrupt(&b), Some(CorruptKind::SizeMismatch));
    let mut b = good.clone();
    b[12..20].copy_from_slice(&u64::MAX.to_le_bytes());
    assert_eq!(corrupt(&b), Some(CorruptKind::SizeMismatch));
}

#[test]
fn reset_then_add_restarts_ids() {
    let mut index = sample();
    index.reset();
    assert_eq!(index.ntotal(), 0);
    assert_eq!(index.dimension(), 2);
    let ids = index.add_vectors(vec![bits(&[3.0, 4.0]), bits(&[5.0, 6.0])]).unwrap();
    assert_eq!(ids, vec![0, 1]);
    assert_eq!(index.vector(0).unwrap(), &bits(&[3.0, 4.0]));
}

#[test]
fn single_adds_get_distinct_consecutive_ids() {
    let mut index = VectorIndex::new(1).unwrap();
    let mut seen = Vec::new();
    for i in 0..8 {
        let ids = index.add_vectors(vec![bits(&[i as f32])]).unwrap();
        assert_eq!(ids.len(), 1);
        seen.push(ids[0]);
    }
    assert_eq!(seen, (0..8).collect::<Vec<i64>>());
    assert_eq!(index.ntotal(), 8);
}
