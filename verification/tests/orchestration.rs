use ann_recall::config::BuildArgs;
use ann_recall::config::DistanceType;
use ann_recall::config::TestDataset;
use ann_recall::errors::ConfigError;
use ann_recall::ranker::rank;
use ann_recall::recall::LevelScore;
use ann_recall::recall::score;
use ann_recall::select::SelectorAlgorithm;
use ann_recall::trials::aggregate_scores;
use ann_recall::trials::plan_trials;
use ann_recall::trials::validate_config;

#[test]
fn planning_is_deterministic() {
    let a = plan_trials(42, 10, 7);
    let b = plan_trials(42, 10, 7);
    assert_eq!(a, b);
    assert_eq!(a.len(), 10);
    for (i, p) in a.iter().enumerate() {
        assert_eq!(p.trial, i as u64);
        assert_eq!(p.seed, 42 + i as u64);
        assert!(p.query_index < 7);
    }
}

#[test]
fn different_seeds_may_pick_different_queries() {
    // The drawn index depends on the seed alone; with a large dataset the
    // ten trials cannot all land on one index by seed reuse.
    let a = plan_trials(1_000_000, 10, 1_000_000);
    let first = a[0].query_index;
    assert!(a.iter().any(|p| p.query_index != first) || first < 1_000_000);
    for p in &a {
        assert!(p.query_index < 1_000_000);
    }
}

#[test]
fn aggregation_sums_hits_per_level() {
    let trials = vec![
        vec![LevelScore { level: 1, hits: 1 }, LevelScore { level: 2, hits: 1 }],
        vec![LevelScore { level: 1, hits: 0 }, LevelScore { level: 2, hits: 2 }],
    ];
    let report = aggregate_scores(&trials);
    assert_eq!(report.len(), 2);
    assert_eq!(report[0].level, 1);
    assert_eq!(report[0].hits_sum, 1);
    assert_eq!(report[0].trials, 2);
    assert_eq!(report[1].level, 2);
    assert_eq!(report[1].hits_sum, 3);
    // Mean recall at level 2: 3 of 4 wanted neighbors were found.
    let mean = report[1].hits_sum as f64 / (report[1].trials as f64 * report[1].level as f64);
    assert_eq!(mean, 0.75);
}

#[test]
fn aggregation_ignores_trial_completion_order() {
    let a = vec![
        vec![LevelScore { level: 1, hits: 1 }],
        vec![LevelScore { level: 1, hits: 0 }],
        vec![LevelScore { level: 1, hits: 1 }],
    ];
    let mut b = a.clone();
    b.reverse();
    assert_eq!(aggregate_scores(&a), aggregate_scores(&b));
}

#[test]
fn aggregation_of_no_trials_is_empty() {
    let report = aggregate_scores(&vec![]);
    assert!(report.is_empty());
}

#[test]
fn validation_rejects_bad_configurations() {
    assert_eq!(validate_config(&vec![1, 10], 0, 5), Err(ConfigError::NoTrials));
    assert_eq!(validate_config(&vec![1, 10], 3, 0), Err(ConfigError::EmptyDataset));
    assert_eq!(validate_config(&vec![], 3, 5), Err(ConfigError::NoRecallLevels));
    assert_eq!(
        validate_config(&vec![0, 10], 3, 5),
        Err(ConfigError::ZeroRecallLevel { index: 0 })
    );
    assert_eq!(
        validate_config(&vec![1, 10, 5], 3, 20),
        Err(ConfigError::NonIncreasingRecallLevels { index: 2 })
    );
    assert_eq!(
        validate_config(&vec![1, 10], 3, 5),
        Err(ConfigError::RecallLevelExceedsGroundTruth {
            index: 1,
            level: 10,
            ground_truth_len: 5
        })
    );
    assert_eq!(validate_config(&vec![1, 5], 3, 5), Ok(()));
}

#[test]
fn whole_run_is_bit_identical_across_repeats() {
    // A complete in-memory run: plan trials, rank each trial's query
    // against the dataset, score against a stub index that always finds
    // the single nearest point, and aggregate. Repeating it must
    // reproduce the report exactly.
    let dataset: Vec<(u32, Vec<f32>)> = (0..20).map(|i| (i, vec![i as f32, 0.0])).collect();
    let levels = vec![1usize, 2, 5];
    let run = || {
        validate_config(&levels, 4, dataset.len()).unwrap();
        let plans = plan_trials(7, 4, dataset.len());
        let mut rows = Vec::new();
        for p in &plans {
            let query = &dataset[p.query_index].1;
            let entries: Vec<(u32, u32)> = dataset
                .iter()
                .map(|(id, v)| {
                    let d: f32 = v
                        .iter()
                        .zip(query.iter())
                        .map(|(a, b)| (a - b) * (a - b))
                        .sum::<f32>()
                        .sqrt();
                    (*id, d.to_bits())
                })
                .collect();
            let ground_truth = rank(&entries, 5, SelectorAlgorithm::MedianThreshold).unwrap();
            let retrieved = ann_recall::select::TopKResult {
                items: vec![ground_truth.items[0]],
            };
            rows.push(score(&ground_truth, &retrieved, &levels).unwrap());
        }
        aggregate_scores(&rows)
    };
    let first = run();
    let second = run();
    assert_eq!(first, second);
    // Recall at level 1 is exactly 1.0: the stub returns the true nearest.
    assert_eq!(first[0].hits_sum, first[0].trials as u128);
}

#[test]
fn metric_names_parse_exactly() {
    assert_eq!(DistanceType::parse("cosine"), Ok(DistanceType::Cosine));
    assert_eq!(DistanceType::parse("euclidean"), Ok(DistanceType::Euclidean));
    assert_eq!(DistanceType::parse("manhattan"), Ok(DistanceType::Manhattan));
    assert_eq!(DistanceType::parse("chebyshev"), Err("not a valid distance"));
    assert_eq!("euclidean".parse::<DistanceType>(), Ok(DistanceType::Euclidean));
}

#[test]
fn dataset_names_parse_exactly() {
    assert_eq!(TestDataset::parse("movies"), Ok(TestDataset::Movies));
    assert_eq!(TestDataset::parse("random"), Ok(TestDataset::Random));
    assert_eq!(TestDataset::parse("songs"), Err("dataset does not exist"));
    assert_eq!("random".parse::<TestDataset>(), Ok(TestDataset::Random));
}

#[test]
fn build_args_defaults_match_the_documented_ones() {
    let args = BuildArgs::default();
    assert_eq!(args.dataset, TestDataset::Random);
    assert_eq!(args.temp_dir, "assets/import.ary");
    assert_eq!(args.map_size, 1024 * 1024 * 1024);
    assert_eq!(args.dimensions, 768);
    assert!(!args.write_map);
    assert!(args.no_append);
    assert_eq!(args.n_trees, None);
    assert_eq!(args.n_vecs, None);
    assert_eq!(args.seed, 42);
}
