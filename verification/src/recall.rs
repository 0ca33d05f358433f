//! Recall scoring.
//!
//! For each requested level r, the first r ground-truth identifiers form
//! the relevant set, the first r retrieved identifiers (fewer if the index
//! returned fewer) form the retrieved set, and recall at r is their
//! intersection's cardinality over r — a strict prefix take, with no tie
//! resolution across the boundary. The identifier sets are held in
//! compressed bitmaps of the `roaring` crate, behind trusted contracts.

use vstd::prelude::*;
use vstd::math::min;
use vstd::set_lib::lemma_len_intersect;
use crate::errors::ConfigError;
use crate::order::Candidate;
use crate::order::distinct_ids;
use crate::select::TopKResult;

verus! {

broadcast use
    vstd::set::group_set_axioms,
    vstd::seq_lib::seq_to_set_is_finite;

/// The identifiers of a candidate sequence, in order.
pub open spec fn ids_of(s: Seq<Candidate>) -> Seq<u32> {
    s.map_values(|c: Candidate| c.id)
}

/// The set of identifiers among the first `min(r, len)` entries.
pub open spec fn prefix_ids(s: Seq<Candidate>, r: int) -> Set<u32> {
    ids_of(s.take(min(r, s.len() as int))).to_set()
}

/// The number of true neighbors found at recall level `r`: the
/// cardinality of the intersection of the two r-prefixes' identifier
/// sets. Recall at r is this over r.
pub open spec fn spec_hits(gt: Seq<Candidate>, ret: Seq<Candidate>, r: int) -> nat {
    prefix_ids(gt, r).intersect(prefix_ids(ret, r)).len()
}

/// What is wrong, if anything, with the requested level at position `i`,
/// checked in this order: a zero level, a level not above its
/// predecessor, a level beyond the ground truth.
pub open spec fn violation_at(levels: Seq<usize>, gt_len: int, i: int) -> Option<ConfigError> {
    if levels[i] == 0 {
        Some(ConfigError::ZeroRecallLevel { index: i as usize })
    } else if i > 0 && levels[i] <= levels[i - 1] {
        Some(ConfigError::NonIncreasingRecallLevels { index: i as usize })
    } else if levels[i] > gt_len {
        Some(
            ConfigError::RecallLevelExceedsGroundTruth {
                index: i as usize,
                level: levels[i],
                ground_truth_len: gt_len as usize,
            },
        )
    } else {
        None
    }
}

/// The requested levels are positive, strictly increasing, and none
/// exceeds the ground truth's size.
pub open spec fn valid_levels(levels: Seq<usize>, gt_len: int) -> bool {
    forall|i: int| 0 <= i < levels.len() ==> (#[trigger] violation_at(levels, gt_len, i)) is None
}

/// The set of values a roaring bitmap holds.
pub uninterp spec fn bitmap_contents(b: roaring::RoaringBitmap) -> Set<u32>;

#[verifier::external_type_specification]
#[verifier::external_body]
pub struct ExRoaringBitmap(roaring::RoaringBitmap);

/// Relies on roaring::RoaringBitmap::new: creates an empty bitmap.
#[verifier::external_body]
fn bitmap_new() -> (b: roaring::RoaringBitmap)
    ensures
        bitmap_contents(b) == Set::<u32>::empty(),
{
    roaring::RoaringBitmap::new()
}

/// Relies on roaring::RoaringBitmap::insert: adds the value to the set;
/// returns whether it was absent before.
#[verifier::external_body]
fn bitmap_insert(b: &mut roaring::RoaringBitmap, value: u32) -> (fresh: bool)
    ensures
        bitmap_contents(*final(b)) == bitmap_contents(*old(b)).insert(value),
        fresh == !bitmap_contents(*old(b)).contains(value),
{
    b.insert(value)
}

/// Relies on roaring::RoaringBitmap::intersection_len: the cardinality of
/// the intersection of the two bitmaps, without materializing it.
#[verifier::external_body]
fn bitmap_intersection_len(a: &roaring::RoaringBitmap, b: &roaring::RoaringBitmap) -> (n: u64)
    requires
        bitmap_contents(*a).finite(),
        bitmap_contents(*b).finite(),
    ensures
        n == bitmap_contents(*a).intersect(bitmap_contents(*b)).len(),
{
    a.intersection_len(b)
}

/// Appending one identifier extends the identifier set by it.
proof fn lemma_ids_push(s: Seq<Candidate>, c: Candidate)
    ensures
        ids_of(s.push(c)).to_set() == ids_of(s).to_set().insert(c.id),
{
    assert(ids_of(s.push(c)) =~= ids_of(s).push(c.id));
    assert forall|x: u32| ids_of(s).push(c.id).to_set().contains(x) implies ids_of(
        s,
    ).to_set().insert(c.id).contains(x) by {
        let p = ids_of(s).push(c.id);
        let i = choose|i: int| 0 <= i < p.len() && p[i] == x;
        if i < ids_of(s).len() {
            assert(ids_of(s)[i] == x);
        }
    }
    assert forall|x: u32| ids_of(s).to_set().insert(c.id).contains(x) implies ids_of(s).push(
        c.id,
    ).to_set().contains(x) by {
        let p = ids_of(s).push(c.id);
        if x == c.id {
            assert(p[p.len() - 1] == x);
        } else {
            let i = choose|i: int| 0 <= i < ids_of(s).len() && ids_of(s)[i] == x;
            assert(p[i] == x);
        }
    }
    assert(ids_of(s).push(c.id).to_set() =~= ids_of(s).to_set().insert(c.id));
}

/// Fill a bitmap with the identifiers of the first `p` entries.
fn prefix_bitmap(result: &TopKResult, p: usize) -> (b: roaring::RoaringBitmap)
    requires
        p <= result@.len(),
    ensures
        bitmap_contents(b) == ids_of(result@.take(p as int)).to_set(),
        bitmap_contents(b).finite(),
{
    let mut b = bitmap_new();
    proof {
        assert(result@.take(0) =~= Seq::<Candidate>::empty());
        assert(ids_of(Seq::<Candidate>::empty()) =~= Seq::<u32>::empty());
        assert(Seq::<u32>::empty().to_set() =~= Set::<u32>::empty());
    }
    let mut j: usize = 0;
    while j < p
        invariant
            j <= p,
            p <= result@.len(),
            bitmap_contents(b) == ids_of(result@.take(j as int)).to_set(),
        decreases p - j,
    {
        let _ = bitmap_insert(&mut b, result.items[j].id);
        proof {
            assert(result@.take(j + 1) =~= result@.take(j as int).push(result@[j as int]));
            lemma_ids_push(result@.take(j as int), result@[j as int]);
        }
        j += 1;
    }
    b
}

/// A per-level outcome: `hits` of the true `level` nearest were found, so
/// recall at this level is `hits / level`.
#[derive(Clone, Copy, Debug, PartialEq, Eq, Structural)]
pub struct LevelScore {
    pub level: usize,
    pub hits: u64,
}

/// The hit count at one level.
fn hits_at_level(ground_truth: &TopKResult, retrieved: &TopKResult, lv: usize) -> (hits: u64)
    requires
        lv <= ground_truth@.len(),
    ensures
        hits == spec_hits(ground_truth@, retrieved@, lv as int),
        hits <= lv,
{
    let relevant = prefix_bitmap(ground_truth, lv);
    let rl = retrieved.len();
    let p = if lv < rl {
        lv
    } else {
        rl
    };
    let got = prefix_bitmap(retrieved, p);
    let hits = bitmap_intersection_len(&relevant, &got);
    proof {
        assert(min(lv as int, ground_truth@.len() as int) == lv as int);
        assert(min(lv as int, retrieved@.len() as int) == p as int);
        let a = prefix_ids(ground_truth@, lv as int);
        let bset = prefix_ids(retrieved@, lv as int);
        lemma_len_intersect(a, bset);
        ids_of(ground_truth@.take(lv as int)).lemma_cardinality_of_set();
        assert(ids_of(ground_truth@.take(lv as int)).len() == lv);
    }
    hits
}

/// Score a retrieved result against the ground truth at each requested
/// level. Levels must be positive, strictly increasing and within the
/// ground truth's size; the first offending level is reported as a
/// configuration error and nothing is scored.
pub fn score(ground_truth: &TopKResult, retrieved: &TopKResult, recall_levels: &Vec<usize>) -> (res:
    Result<Vec<LevelScore>, ConfigError>)
    ensures
        match res {
            Ok(scores) => {
                &&& valid_levels(recall_levels@, ground_truth@.len() as int)
                &&& scores@.len() == recall_levels@.len()
                &&& forall|i: int|
                    0 <= i < scores@.len() ==> (#[trigger] scores@[i]).level == recall_levels@[i]
                        && scores@[i].hits == spec_hits(
                        ground_truth@,
                        retrieved@,
                        recall_levels@[i] as int,
                    ) && scores@[i].hits <= recall_levels@[i]
            },
            Err(e) => {
                &&& !valid_levels(recall_levels@, ground_truth@.len() as int)
                &&& exists|i: int|
                    0 <= i < recall_levels@.len() && (#[trigger] violation_at(
                        recall_levels@,
                        ground_truth@.len() as int,
                        i,
                    )) == Some(e) && (forall|j: int|
                        0 <= j < i ==> (#[trigger] violation_at(
                            recall_levels@,
                            ground_truth@.len() as int,
                            j,
                        )) is None)
            },
        },
{
    let ghost gt_len = ground_truth@.len() as int;
    let gt_n = ground_truth.len();
    let m = recall_levels.len();
    let mut i: usize = 0;
    while i < m
        invariant
            i <= m,
            m == recall_levels@.len(),
            gt_n == ground_truth@.len(),
            gt_len == ground_truth@.len() as int,
            forall|j: int| 0 <= j < i ==> (#[trigger] violation_at(recall_levels@, gt_len, j)) is None,
        decreases m - i,
    {
        let lv = recall_levels[i];
        if lv == 0 {
            proof {
                assert(violation_at(recall_levels@, gt_len, i as int) == Some(
                    ConfigError::ZeroRecallLevel { index: i },
                ));
            }
            return Err(ConfigError::ZeroRecallLevel { index: i });
        }
        if i > 0 && lv <= recall_levels[i - 1] {
            proof {
                assert(violation_at(recall_levels@, gt_len, i as int) == Some(
                    ConfigError::NonIncreasingRecallLevels { index: i },
                ));
            }
            return Err(ConfigError::NonIncreasingRecallLevels { index: i });
        }
        if lv > gt_n {
            proof {
                assert(violation_at(recall_levels@, gt_len, i as int) == Some(
                    ConfigError::RecallLevelExceedsGroundTruth {
                        index: i,
                        level: lv,
                        ground_truth_len: gt_n,
                    },
                ));
            }
            return Err(
                ConfigError::RecallLevelExceedsGroundTruth {
                    index: i,
                    level: lv,
                    ground_truth_len: gt_n,
                },
            );
        }
        proof {
            assert(violation_at(recall_levels@, gt_len, i as int) is None);
        }
        i += 1;
    }
    let mut scores: Vec<LevelScore> = Vec::new();
    let mut t: usize = 0;
    while t < m
        invariant
            t <= m,
            m == recall_levels@.len(),
            gt_n == ground_truth@.len(),
            valid_levels(recall_levels@, ground_truth@.len() as int),
            scores@.len() == t,
            forall|j: int|
                0 <= j < t ==> (#[trigger] scores@[j]).level == recall_levels@[j]
                    && scores@[j].hits == spec_hits(
                    ground_truth@,
                    retrieved@,
                    recall_levels@[j] as int,
                ) && scores@[j].hits <= recall_levels@[j],
        decreases m - t,
    {
        let lv = recall_levels[t];
        proof {
            assert(violation_at(recall_levels@, ground_truth@.len() as int, t as int) is None);
        }
        let hits = hits_at_level(ground_truth, retrieved, lv);
        scores.push(LevelScore { level: lv, hits });
        t += 1;
    }
    Ok(scores)
}

/// Law: recall bounds. The hit count at level r never exceeds r, so the
/// recall fraction hits / r lies in [0, 1]; that it equals the
/// intersection's cardinality over r is its definition, kept by `score`.
pub proof fn lemma_recall_bounds(gt: Seq<Candidate>, ret: Seq<Candidate>, r: int)
    requires
        0 <= r,
    ensures
        spec_hits(gt, ret, r) <= r,
{
    let cut = min(r, gt.len() as int);
    let a = prefix_ids(gt, r);
    lemma_len_intersect(a, prefix_ids(ret, r));
    ids_of(gt.take(cut)).lemma_cardinality_of_set();
    assert(ids_of(gt.take(cut)).len() == cut);
}

/// Law: self-recall identity, scoring half. Scoring a result against
/// itself, at a level within its length and with distinct identifiers,
/// finds every one of the r true neighbors: hits = r, recall exactly 1.
pub proof fn lemma_self_recall(gt: Seq<Candidate>, r: int)
    requires
        0 <= r <= gt.len(),
        distinct_ids(gt),
    ensures
        spec_hits(gt, gt, r) == r,
{
    let pref = ids_of(gt.take(r));
    let a = prefix_ids(gt, r);
    assert(a.intersect(a) =~= a);
    assert(pref.no_duplicates()) by {
        assert forall|i: int, j: int|
            0 <= i < pref.len() && 0 <= j < pref.len() && i != j implies pref[i] != pref[j] by {
            assert(gt.take(r)[i] == gt[i] && gt.take(r)[j] == gt[j]);
        }
    }
    pref.unique_seq_to_set();
    assert(pref.len() == r);
}

} // verus!
