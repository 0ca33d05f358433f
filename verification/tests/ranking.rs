use ann_recall::errors::DataError;
use ann_recall::order::key_from_bits;
use ann_recall::ranker::check_dimensions;
use ann_recall::ranker::rank;
use ann_recall::select::SelectorAlgorithm;

fn euclidean(p: &[f32], q: &[f32]) -> f32 {
    p.iter().zip(q.iter()).map(|(a, b)| (a - b) * (a - b)).sum::<f32>().sqrt()
}

/// The oracle scan for the euclidean metric over a small dataset.
fn scan(dataset: &[(u32, Vec<f32>)], query: &[f32]) -> Vec<(u32, u32)> {
    dataset.iter().map(|(id, v)| (*id, euclidean(query, v).to_bits())).collect()
}

fn small_dataset() -> Vec<(u32, Vec<f32>)> {
    vec![
        (1, vec![0.0, 0.0]),
        (2, vec![1.0, 0.0]),
        (3, vec![2.0, 0.0]),
        (4, vec![5.0, 0.0]),
    ]
}

#[test]
fn euclidean_scenario_ranks_two_nearest() {
    let entries = scan(&small_dataset(), &[0.0, 0.0]);
    let r = rank(&entries, 2, SelectorAlgorithm::Heap).unwrap();
    assert_eq!(r.items.len(), 2);
    assert_eq!(r.items[0].id, 1);
    assert_eq!(r.items[0].dist.bits, 0.0f32.to_bits());
    assert_eq!(r.items[1].id, 2);
    assert_eq!(r.items[1].dist.bits, 1.0f32.to_bits());
}

#[test]
fn tie_at_same_distance_orders_by_identifier() {
    let mut dataset = small_dataset();
    dataset.push((5, vec![1.0, 0.0]));
    let entries = scan(&dataset, &[0.0, 0.0]);
    for algorithm in [SelectorAlgorithm::Heap, SelectorAlgorithm::MedianThreshold] {
        let r = rank(&entries, 3, algorithm).unwrap();
        let ids: Vec<u32> = r.items.iter().map(|c| c.id).collect();
        assert_eq!(ids, vec![1, 2, 5]);
        assert_eq!(r.items[1].dist.bits, 1.0f32.to_bits());
        assert_eq!(r.items[2].dist.bits, 1.0f32.to_bits());
    }
}

#[test]
fn self_query_returns_member_first_at_distance_zero() {
    let entries = scan(&small_dataset(), &[2.0, 0.0]);
    let r = rank(&entries, 1, SelectorAlgorithm::Heap).unwrap();
    assert_eq!(r.items[0].id, 3);
    assert_eq!(r.items[0].dist.bits, 0);
}

#[test]
fn non_finite_distance_is_a_data_error() {
    let bad = f32::NAN.to_bits();
    let entries = vec![(1, 0.5f32.to_bits()), (2, bad), (3, f32::INFINITY.to_bits())];
    let err = rank(&entries, 2, SelectorAlgorithm::Heap).unwrap_err();
    assert_eq!(err, DataError::NonFiniteDistance { id: 2, bits: bad });
}

#[test]
fn dimension_mismatch_is_a_data_error() {
    assert_eq!(check_dimensions(768, 768), Ok(()));
    assert_eq!(
        check_dimensions(768, 512),
        Err(DataError::DimensionMismatch { expected: 768, got: 512 })
    );
}

#[test]
fn negative_zero_collapses_onto_positive_zero() {
    let key = key_from_bits(9, (-0.0f32).to_bits()).unwrap();
    assert_eq!(key.bits, 0);
    let key = key_from_bits(9, 0.0f32.to_bits()).unwrap();
    assert_eq!(key.bits, 0);
}

#[test]
fn infinite_key_is_rejected() {
    let bits = f32::NEG_INFINITY.to_bits();
    assert_eq!(
        key_from_bits(7, bits),
        Err(DataError::NonFiniteDistance { id: 7, bits })
    );
}
