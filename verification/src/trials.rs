//! Trial orchestration decisions.
//!
//! Every trial is planned up front, deterministically: trial i gets the
//! seed base_seed + i, and that seed alone decides which dataset vector
//! becomes the query. Trials may then run in any order and on any number
//! of workers; the per-level aggregate is a sum of hit counts, so the
//! report depends only on which trials ran, never on when or where. The
//! mean recall at a level is hits_sum / (trials * level), kept here as an
//! exact fraction.

use vstd::prelude::*;
use crate::errors::ConfigError;
use crate::recall::LevelScore;
use crate::recall::valid_levels;
use crate::recall::violation_at;

verus! {

broadcast use
    vstd::multiset::group_multiset_axioms,
    vstd::seq_lib::group_to_multiset_ensures;

/// The index a seeded generator draws from a dataset of the given size.
pub uninterp spec fn chosen_index(seed: u64, len: usize) -> usize;

/// Relies on rand::rngs::StdRng::seed_from_u64 and
/// rand::RngExt::random_range: StdRng is a deterministic pseudo-random
/// generator, so the drawn index is a function of the seed and the size
/// alone, below the size, and the same on every run and every machine.
#[verifier::external_body]
fn draw_index(seed: u64, len: usize) -> (r: usize)
    requires
        len > 0,
    ensures
        r < len,
        r == chosen_index(seed, len),
{
    let mut rng = <rand::rngs::StdRng as rand::SeedableRng>::seed_from_u64(seed);
    <rand::rngs::StdRng as rand::RngExt>::random_range(&mut rng, 0..len)
}

/// One planned trial: its index, its derived seed, and the dataset
/// position of its query vector.
#[derive(Clone, Copy, Debug, PartialEq, Eq, Structural)]
pub struct TrialPlan {
    pub trial: u64,
    pub seed: u64,
    pub query_index: usize,
}

/// The one plan the inputs admit.
pub open spec fn is_trial_plan(
    plans: Seq<TrialPlan>,
    base_seed: u64,
    n_trials: u64,
    dataset_len: usize,
) -> bool {
    &&& plans.len() == n_trials
    &&& forall|i: int|
        0 <= i < plans.len() ==> {
            let p = #[trigger] plans[i];
            &&& p.trial == i
            &&& p.seed == base_seed + i
            &&& p.query_index == chosen_index((base_seed + i) as u64, dataset_len)
            &&& p.query_index < dataset_len
        }
}

/// Plan every trial of a run. Trial i's seed is base_seed + i and its
/// query is drawn from that seed alone, so the plan is a function of
/// (base_seed, n_trials, dataset_len) and nothing else — not of time,
/// scheduling, or the order trials will later run in.
pub fn plan_trials(base_seed: u64, n_trials: u64, dataset_len: usize) -> (plans: Vec<TrialPlan>)
    requires
        dataset_len > 0,
        base_seed + n_trials <= u64::MAX,
    ensures
        is_trial_plan(plans@, base_seed, n_trials, dataset_len),
{
    let mut plans: Vec<TrialPlan> = Vec::new();
    let mut i: u64 = 0;
    while i < n_trials
        invariant
            i <= n_trials,
            base_seed + n_trials <= u64::MAX,
            dataset_len > 0,
            plans@.len() == i,
            forall|t: int|
                0 <= t < plans@.len() ==> {
                    let p = #[trigger] plans@[t];
                    &&& p.trial == t
                    &&& p.seed == base_seed + t
                    &&& p.query_index == chosen_index((base_seed + t) as u64, dataset_len)
                    &&& p.query_index < dataset_len
                },
        decreases n_trials - i,
    {
        let seed = base_seed + i;
        let query_index = draw_index(seed, dataset_len);
        plans.push(TrialPlan { trial: i, seed, query_index });
        i = i + 1;
    }
    plans
}

/// Law: determinism. Any two plans for the same base seed, trial count
/// and dataset size are identical, entry for entry; so two runs of the
/// orchestrator see the very same trials regardless of parallelism.
pub proof fn lemma_plan_deterministic(
    plans_a: Seq<TrialPlan>,
    plans_b: Seq<TrialPlan>,
    base_seed: u64,
    n_trials: u64,
    dataset_len: usize,
)
    requires
        is_trial_plan(plans_a, base_seed, n_trials, dataset_len),
        is_trial_plan(plans_b, base_seed, n_trials, dataset_len),
    ensures
        plans_a == plans_b,
{
    assert forall|i: int| 0 <= i < plans_a.len() implies plans_a[i] == plans_b[i] by {
        assert(plans_a[i].trial == i && plans_b[i].trial == i);
    }
    assert(plans_a =~= plans_b);
}

/// One line of the final report: across `trials` trials, `hits_sum` of
/// the `trials * level` wanted neighbors were found, so the mean recall
/// at `level` is the fraction hits_sum / (trials * level).
#[derive(Clone, Copy, Debug, PartialEq, Eq, Structural)]
pub struct ReportEntry {
    pub level: usize,
    pub hits_sum: u128,
    pub trials: u64,
}

/// The total hit count of column `j` over all score rows.
pub open spec fn col_hits_sum(rows: Seq<Seq<LevelScore>>, j: int) -> int
    decreases rows.len(),
{
    if rows.len() == 0 {
        0
    } else {
        rows.last()[j].hits + col_hits_sum(rows.drop_last(), j)
    }
}

/// The rows all have the same levels in the same positions.
pub open spec fn uniform_rows(rows: Seq<Seq<LevelScore>>) -> bool {
    &&& forall|t: int| 0 <= t < rows.len() ==> (#[trigger] rows[t]).len() == rows[0].len()
    &&& forall|t: int, j: int|
        0 <= t < rows.len() && 0 <= j < rows[0].len() ==> (#[trigger] rows[t][j]).level
            == rows[0][j].level
}

/// The views of the per-trial score rows.
pub open spec fn rows_of(v: Seq<Vec<LevelScore>>) -> Seq<Seq<LevelScore>> {
    Seq::new(v.len(), |t: int| v[t]@)
}

/// Removing one row subtracts exactly its contribution from a column sum.
proof fn lemma_col_sum_remove(rows: Seq<Seq<LevelScore>>, i: int, j: int)
    requires
        0 <= i < rows.len(),
    ensures
        col_hits_sum(rows, j) == rows[i][j].hits + col_hits_sum(rows.remove(i), j),
    decreases rows.len(),
{
    if i == rows.len() - 1 {
        assert(rows.remove(i) =~= rows.drop_last());
    } else {
        lemma_col_sum_remove(rows.drop_last(), i, j);
        assert(rows.remove(i).drop_last() =~= rows.drop_last().remove(i));
        assert(rows.remove(i).last() == rows.last());
    }
}

/// Law: determinism under parallelism. The column sums — and with them
/// the whole report — depend only on the multiset of per-trial score
/// rows, never on the order in which parallel trials delivered them.
pub proof fn lemma_aggregate_order_independent(
    rows1: Seq<Seq<LevelScore>>,
    rows2: Seq<Seq<LevelScore>>,
    j: int,
)
    requires
        rows1.to_multiset() == rows2.to_multiset(),
    ensures
        col_hits_sum(rows1, j) == col_hits_sum(rows2, j),
    decreases rows1.len(),
{
    assert(rows1.to_multiset().len() == rows1.len());
    assert(rows2.to_multiset().len() == rows2.len());
    if rows1.len() > 0 {
        let x = rows1.last();
        assert(rows1.contains(x));
        assert(rows1.to_multiset().count(x) > 0);
        assert(rows2.contains(x));
        let i = choose|i: int| 0 <= i < rows2.len() && rows2[i] == x;
        lemma_col_sum_remove(rows2, i, j);
        assert(rows1.drop_last() =~= rows1.remove(rows1.len() - 1));
        assert(rows1.drop_last().to_multiset() == rows1.to_multiset().remove(x));
        assert(rows2.remove(i).to_multiset() == rows2.to_multiset().remove(x));
        lemma_aggregate_order_independent(rows1.drop_last(), rows2.remove(i), j);
    }
}

/// Law: report means lie in [0, 1]. When every row's hit count at column
/// `j` is bounded by `bound` — as the scorer guarantees with the column's
/// level for `bound` — the column sum is at most `rows * bound`, so the
/// mean recall hits_sum / (trials * level) is at most 1; it is at least 0
/// because hit counts are.
pub proof fn lemma_mean_recall_bounds(rows: Seq<Seq<LevelScore>>, j: int, bound: int)
    requires
        forall|t: int| 0 <= t < rows.len() ==> (#[trigger] rows[t])[j].hits <= bound,
    ensures
        0 <= col_hits_sum(rows, j) <= rows.len() * bound,
    decreases rows.len(),
{
    if rows.len() > 0 {
        lemma_mean_recall_bounds(rows.drop_last(), j, bound);
        assert((rows.len() - 1) * bound + bound == rows.len() * bound) by (nonlinear_arith);
    }
}

/// Law: determinism under parallelism, whole-report form. Two runs whose
/// trials produced the same score rows — in any order — aggregate to the
/// identical report, bit for bit.
pub proof fn lemma_report_order_independent(
    rows1: Seq<Seq<LevelScore>>,
    rows2: Seq<Seq<LevelScore>>,
    report1: Seq<ReportEntry>,
    report2: Seq<ReportEntry>,
)
    requires
        rows1.to_multiset() == rows2.to_multiset(),
        uniform_rows(rows1),
        is_report_of(report1, rows1),
        is_report_of(report2, rows2),
    ensures
        report1 == report2,
{
    assert(rows1.to_multiset().len() == rows1.len());
    assert(rows2.to_multiset().len() == rows2.len());
    if rows1.len() == 0 {
        assert(report1 =~= report2);
    } else {
        assert(rows2.contains(rows2[0]));
        assert(rows2.to_multiset().count(rows2[0]) > 0);
        assert(rows1.contains(rows2[0]));
        let w = choose|w: int| 0 <= w < rows1.len() && rows1[w] == rows2[0];
        assert(rows1[w].len() == rows1[0].len());
        assert(forall|j: int|
            0 <= j < rows1[0].len() ==> (#[trigger] rows1[w][j]).level == rows1[0][j].level);
        assert forall|j: int| 0 <= j < report1.len() implies report1[j] == report2[j] by {
            lemma_aggregate_order_independent(rows1, rows2, j);
        }
        assert(report1 =~= report2);
    }
}

/// The report the rows determine: one entry per level, carrying that
/// column's exact hit sum and the trial count.
pub open spec fn is_report_of(report: Seq<ReportEntry>, rows: Seq<Seq<LevelScore>>) -> bool {
    &&& report.len() == (if rows.len() == 0 {
        0int
    } else {
        rows[0].len() as int
    })
    &&& forall|j: int|
        0 <= j < report.len() ==> {
            let entry = #[trigger] report[j];
            &&& entry.level == rows[0][j].level
            &&& entry.trials == rows.len()
            &&& entry.hits_sum == col_hits_sum(rows, j)
        }
}

/// Aggregate per-trial scores into the run's report: for each level, the
/// exact sum of hit counts across trials, as the numerator of the mean
/// recall fraction hits_sum / (trials * level).
pub fn aggregate_scores(trial_scores: &Vec<Vec<LevelScore>>) -> (report: Vec<ReportEntry>)
    requires
        uniform_rows(rows_of(trial_scores@)),
    ensures
        is_report_of(report@, rows_of(trial_scores@)),
{
    let n = trial_scores.len();
    let mut report: Vec<ReportEntry> = Vec::new();
    if n == 0 {
        return report;
    }
    let m = trial_scores[0].len();
    let ghost rows = rows_of(trial_scores@);
    let mut j: usize = 0;
    while j < m
        invariant
            j <= m,
            n == trial_scores@.len(),
            n > 0,
            m == trial_scores@[0]@.len(),
            rows == rows_of(trial_scores@),
            uniform_rows(rows),
            report@.len() == j,
            forall|q: int|
                0 <= q < report@.len() ==> {
                    let entry = #[trigger] report@[q];
                    &&& entry.level == trial_scores@[0]@[q].level
                    &&& entry.trials == n
                    &&& entry.hits_sum == col_hits_sum(rows, q)
                },
        decreases m - j,
    {
        let mut acc: u128 = 0;
        let mut t: usize = 0;
        while t < n
            invariant
                t <= n,
                j < m,
                n == trial_scores@.len(),
                m == trial_scores@[0]@.len(),
                rows == rows_of(trial_scores@),
                uniform_rows(rows),
                acc == col_hits_sum(rows.take(t as int), j as int),
                acc <= t * 0xffff_ffff_ffff_ffffu128,
            decreases n - t,
        {
            let row = &trial_scores[t];
            proof {
                assert(rows[t as int] == trial_scores@[t as int]@);
                assert(rows[t as int].len() == rows[0].len());
            }
            let hits = row[j].hits;
            proof {
                assert(rows.take(t + 1).drop_last() =~= rows.take(t as int));
                assert(rows.take(t + 1).last() == rows[t as int]);
            }
            acc = acc + hits as u128;
            t += 1;
        }
        proof {
            assert(rows.take(n as int) =~= rows);
        }
        let level = trial_scores[0][j].level;
        report.push(ReportEntry { level, hits_sum: acc, trials: n as u64 });
        j += 1;
    }
    report
}

/// Everything the orchestrator demands of a run configuration: at least
/// one trial, a non-empty dataset, and at least one recall level, the
/// levels positive, strictly increasing and within the dataset's size —
/// the ground truth at the largest level can then hold that many entries.
pub open spec fn config_ok(levels: Seq<usize>, n_trials: u64, dataset_len: int) -> bool {
    &&& n_trials >= 1
    &&& dataset_len >= 1
    &&& levels.len() >= 1
    &&& valid_levels(levels, dataset_len)
}

/// Validate a run configuration before any trial executes; the first
/// failure, in checking order, is reported and nothing runs.
pub fn validate_config(recall_levels: &Vec<usize>, n_trials: u64, dataset_len: usize) -> (r: Result<
    (),
    ConfigError,
>)
    ensures
        match r {
            Ok(_) => config_ok(recall_levels@, n_trials, dataset_len as int),
            Err(e) => {
                &&& !config_ok(recall_levels@, n_trials, dataset_len as int)
                &&& if n_trials == 0 {
                    e == ConfigError::NoTrials
                } else if dataset_len == 0 {
                    e == ConfigError::EmptyDataset
                } else if recall_levels@.len() == 0 {
                    e == ConfigError::NoRecallLevels
                } else {
                    exists|i: int|
                        0 <= i < recall_levels@.len() && (#[trigger] violation_at(
                            recall_levels@,
                            dataset_len as int,
                            i,
                        )) == Some(e) && (forall|q: int|
                            0 <= q < i ==> (#[trigger] violation_at(
                                recall_levels@,
                                dataset_len as int,
                                q,
                            )) is None)
                }
            },
        },
{
    if n_trials == 0 {
        return Err(ConfigError::NoTrials);
    }
    if dataset_len == 0 {
        return Err(ConfigError::EmptyDataset);
    }
    let m = recall_levels.len();
    if m == 0 {
        return Err(ConfigError::NoRecallLevels);
    }
    let mut i: usize = 0;
    while i < m
        invariant
            i <= m,
            m == recall_levels@.len(),
            n_trials >= 1,
            dataset_len >= 1,
            m >= 1,
            forall|q: int|
                0 <= q < i ==> (#[trigger] violation_at(
                    recall_levels@,
                    dataset_len as int,
                    q,
                )) is None,
        decreases m - i,
    {
        let lv = recall_levels[i];
        if lv == 0 {
            proof {
                assert(violation_at(recall_levels@, dataset_len as int, i as int) == Some(
                    ConfigError::ZeroRecallLevel { index: i },
                ));
            }
            return Err(ConfigError::ZeroRecallLevel { index: i });
        }
        if i > 0 && lv <= recall_levels[i - 1] {
            proof {
                assert(violation_at(recall_levels@, dataset_len as int, i as int) == Some(
                    ConfigError::NonIncreasingRecallLevels { index: i },
                ));
            }
            return Err(ConfigError::NonIncreasingRecallLevels { index: i });
        }
        if lv > dataset_len {
            proof {
                assert(violation_at(recall_levels@, dataset_len as int, i as int) == Some(
                    ConfigError::RecallLevelExceedsGroundTruth {
                        index: i,
                        level: lv,
                        ground_truth_len: dataset_len,
                    },
                ));
            }
            return Err(
                ConfigError::RecallLevelExceedsGroundTruth {
                    index: i,
                    level: lv,
                    ground_truth_len: dataset_len,
                },
            );
        }
        proof {
            assert(violation_at(recall_levels@, dataset_len as int, i as int) is None);
        }
        i += 1;
    }
    Ok(())
}

} // verus!
