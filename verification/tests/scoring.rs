use ann_recall::errors::ConfigError;
use ann_recall::order::Candidate;
use ann_recall::order::NonNegativeOrderedFloat;
use ann_recall::recall::score;
use ann_recall::select::TopKResult;

fn cand(id: u32, d: f32) -> Candidate {
    Candidate { id, dist: NonNegativeOrderedFloat { bits: d.to_bits() } }
}

fn result_of(cands: Vec<Candidate>) -> TopKResult {
    TopKResult { items: cands }
}

#[test]
fn scenario_recall_one_then_half() {
    // Ground truth for the euclidean scenario at k = 2; the stub index
    // found the nearest point but missed the second.
    let ground_truth = result_of(vec![cand(1, 0.0), cand(2, 1.0)]);
    let retrieved = result_of(vec![cand(1, 0.0), cand(3, 2.0)]);
    let scores = score(&ground_truth, &retrieved, &vec![1, 2]).unwrap();
    assert_eq!(scores.len(), 2);
    assert_eq!(scores[0].level, 1);
    assert_eq!(scores[0].hits, 1);
    assert_eq!(scores[1].level, 2);
    assert_eq!(scores[1].hits, 1);
    assert_eq!(scores[0].hits as f32 / scores[0].level as f32, 1.0);
    assert_eq!(scores[1].hits as f32 / scores[1].level as f32, 0.5);
}

#[test]
fn scoring_a_result_against_itself_is_recall_one() {
    let gt = result_of(vec![cand(1, 0.0), cand(2, 1.0), cand(5, 1.0), cand(3, 2.0)]);
    let scores = score(&gt, &gt, &vec![1, 2, 4]).unwrap();
    for s in &scores {
        assert_eq!(s.hits, s.level as u64);
        assert_eq!(s.hits as f32 / s.level as f32, 1.0);
    }
}

#[test]
fn recall_never_exceeds_one() {
    let ground_truth = result_of(vec![cand(1, 0.0), cand(2, 1.0), cand(3, 2.0)]);
    let retrieved = result_of(vec![cand(9, 0.5), cand(1, 1.5), cand(2, 2.5)]);
    let scores = score(&ground_truth, &retrieved, &vec![1, 2, 3]).unwrap();
    for s in &scores {
        assert!(s.hits <= s.level as u64);
    }
    assert_eq!(scores[0].hits, 0);
    assert_eq!(scores[2].hits, 2);
}

#[test]
fn short_retrieved_list_is_penalized_not_padded() {
    let ground_truth = result_of(vec![cand(1, 0.0), cand(2, 1.0), cand(3, 2.0)]);
    let retrieved = result_of(vec![cand(1, 0.0)]);
    let scores = score(&ground_truth, &retrieved, &vec![3]).unwrap();
    assert_eq!(scores[0].hits, 1);
    assert_eq!(scores[0].level, 3);
}

#[test]
fn duplicate_identifiers_collapse() {
    let ground_truth = result_of(vec![cand(1, 0.0), cand(1, 0.0), cand(2, 1.0)]);
    let retrieved = result_of(vec![cand(1, 0.0), cand(1, 0.5), cand(9, 1.0)]);
    let scores = score(&ground_truth, &retrieved, &vec![3]).unwrap();
    assert_eq!(scores[0].hits, 1);
}

#[test]
fn zero_level_is_a_config_error() {
    let gt = result_of(vec![cand(1, 0.0), cand(2, 1.0)]);
    let err = score(&gt, &gt, &vec![1, 0]).unwrap_err();
    assert_eq!(err, ConfigError::ZeroRecallLevel { index: 1 });
}

#[test]
fn non_increasing_levels_are_a_config_error() {
    let gt = result_of(vec![cand(1, 0.0), cand(2, 1.0)]);
    let err = score(&gt, &gt, &vec![2, 2]).unwrap_err();
    assert_eq!(err, ConfigError::NonIncreasingRecallLevels { index: 1 });
}

#[test]
fn level_beyond_ground_truth_is_a_config_error() {
    let gt = result_of(vec![cand(1, 0.0), cand(2, 1.0)]);
    let err = score(&gt, &gt, &vec![1, 3]).unwrap_err();
    assert_eq!(
        err,
        ConfigError::RecallLevelExceedsGroundTruth { index: 1, level: 3, ground_truth_len: 2 }
    );
}
