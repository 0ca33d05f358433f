use ann_recall::order::Candidate;
use ann_recall::order::NonNegativeOrderedFloat;
use ann_recall::select::SelectorAlgorithm;
use ann_recall::select::select_top_k;
use ann_recall::select::select_top_k_heap;
use ann_recall::select::select_top_k_median;

fn cand(id: u32, d: f32) -> Candidate {
    Candidate { id, dist: NonNegativeOrderedFloat { bits: d.to_bits() } }
}

fn ids(result: &ann_recall::select::TopKResult) -> Vec<u32> {
    result.items.iter().map(|c| c.id).collect()
}

#[test]
fn heap_selects_k_smallest_ascending() {
    let cands = vec![cand(7, 3.5), cand(1, 0.5), cand(4, 2.0), cand(9, 0.25), cand(2, 9.0)];
    let r = select_top_k_heap(&cands, 3);
    assert_eq!(ids(&r), vec![9, 1, 4]);
    assert_eq!(r.items[0].dist.bits, 0.25f32.to_bits());
    assert_eq!(r.items[2].dist.bits, 2.0f32.to_bits());
    // No excluded candidate is strictly below the result's maximum.
    for c in &cands {
        if !r.items.contains(c) {
            assert!(c.dist.bits >= r.items[2].dist.bits);
        }
    }
}

#[test]
fn median_selects_k_smallest_ascending() {
    let cands = vec![cand(7, 3.5), cand(1, 0.5), cand(4, 2.0), cand(9, 0.25), cand(2, 9.0)];
    let r = select_top_k_median(&cands, 3);
    assert_eq!(ids(&r), vec![9, 1, 4]);
}

#[test]
fn empty_input_yields_empty_result() {
    let cands: Vec<Candidate> = vec![];
    assert!(select_top_k_heap(&cands, 5).items.is_empty());
    assert!(select_top_k_median(&cands, 5).items.is_empty());
}

#[test]
fn k_zero_yields_empty_result() {
    let cands = vec![cand(1, 1.0), cand(2, 2.0)];
    assert!(select_top_k_heap(&cands, 0).items.is_empty());
    assert!(select_top_k_median(&cands, 0).items.is_empty());
}

#[test]
fn k_larger_than_n_returns_full_sorted_input() {
    let cands = vec![cand(3, 2.0), cand(1, 1.0), cand(2, 3.0)];
    let r = select_top_k_heap(&cands, 10);
    assert_eq!(ids(&r), vec![1, 3, 2]);
    let m = select_top_k_median(&cands, 10);
    assert_eq!(ids(&m), vec![1, 3, 2]);
}

#[test]
fn equal_distances_order_by_identifier() {
    let cands = vec![cand(5, 1.0), cand(2, 1.0), cand(9, 1.0), cand(1, 1.0)];
    let r = select_top_k_heap(&cands, 3);
    assert_eq!(ids(&r), vec![1, 2, 5]);
    let m = select_top_k_median(&cands, 3);
    assert_eq!(ids(&m), vec![1, 2, 5]);
}

#[test]
fn algorithms_agree_with_ties_and_duplicates() {
    let cands = vec![
        cand(4, 2.0),
        cand(2, 1.0),
        cand(5, 1.0),
        cand(2, 1.0),
        cand(8, 0.5),
        cand(6, 2.0),
        cand(3, 7.25),
    ];
    for k in 0..=8 {
        let heap = select_top_k(&cands, k, SelectorAlgorithm::Heap);
        let median = select_top_k(&cands, k, SelectorAlgorithm::MedianThreshold);
        assert_eq!(heap.items, median.items);
    }
}

#[test]
fn replay_on_reordered_input_yields_same_result() {
    let cands = vec![cand(4, 2.0), cand(2, 1.0), cand(5, 1.0), cand(8, 0.5), cand(6, 2.0)];
    let mut reordered = cands.clone();
    reordered.reverse();
    reordered.swap(0, 2);
    let a = select_top_k_heap(&cands, 3);
    let b = select_top_k_heap(&reordered, 3);
    let c = select_top_k_median(&reordered, 3);
    assert_eq!(a.items, b.items);
    assert_eq!(a.items, c.items);
}

#[test]
fn median_threshold_engages_on_long_descending_input() {
    // k = 2 forces several rebalances over a 2k buffer.
    let cands: Vec<Candidate> = (0..50).map(|i| cand(i, 100.0 - i as f32)).collect();
    let m = select_top_k_median(&cands, 2);
    assert_eq!(ids(&m), vec![49, 48]);
    let h = select_top_k_heap(&cands, 2);
    assert_eq!(h.items, m.items);
}
