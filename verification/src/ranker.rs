//! Exact ground-truth ranking.
//!
//! The distance oracle — an external capability, one reading per dataset
//! entry — reports each distance as an IEEE 754 bit pattern. The ranker
//! turns the whole scan into candidates, rejecting it at the first
//! non-finite reading, and hands them to the bounded top-k selector. The
//! result is the correctness reference the approximate index is measured
//! against.

use vstd::prelude::*;
use crate::errors::DataError;
use crate::order::Candidate;
use crate::order::NonNegativeOrderedFloat;
use crate::order::cand_le;
use crate::order::distinct_ids;
use crate::order::f32_bits_finite;
use crate::order::key_from_bits;
use crate::order::normalize_zero_bits;
use crate::select::SelectorAlgorithm;
use crate::select::TopKResult;
use crate::select::is_top_k;
use crate::select::lemma_sorted_index;
use crate::select::select_top_k;

verus! {

broadcast use
    vstd::multiset::group_multiset_axioms,
    vstd::seq_lib::group_to_multiset_ensures;

/// The distance oracle's precondition: a query and a dataset vector may
/// only be compared at equal dimensionality. A mismatch is a data error,
/// surfaced before any distance is taken — never a silent truncation.
pub fn check_dimensions(expected: usize, got: usize) -> (r: Result<(), DataError>)
    ensures
        match r {
            Ok(_) => expected == got,
            Err(e) => expected != got && e == (DataError::DimensionMismatch { expected, got }),
        },
{
    if expected == got {
        Ok(())
    } else {
        Err(DataError::DimensionMismatch { expected, got })
    }
}

/// The candidate one accepted oracle reading stands for.
pub open spec fn candidate_of(entry: (u32, u32)) -> Candidate {
    Candidate {
        id: entry.0,
        dist: NonNegativeOrderedFloat { bits: normalize_zero_bits(entry.1) },
    }
}

/// The candidate sequence a whole scan of oracle readings stands for.
pub open spec fn candidates_of(entries: Seq<(u32, u32)>) -> Seq<Candidate> {
    Seq::new(entries.len(), |i: int| candidate_of(entries[i]))
}

/// Every reading of the scan is a finite distance.
pub open spec fn all_finite(entries: Seq<(u32, u32)>) -> bool {
    forall|i: int| 0 <= i < entries.len() ==> f32_bits_finite((#[trigger] entries[i]).1)
}

/// Rank the dataset against the query: one oracle reading per entry, each
/// consumed exactly once in scan order, and the k nearest returned in
/// ascending order. The scan aborts with a data error at the first
/// non-finite distance, identifying the offending entry.
pub fn rank(entries: &Vec<(u32, u32)>, k: usize, algorithm: SelectorAlgorithm) -> (r: Result<
    TopKResult,
    DataError,
>)
    ensures
        match r {
            Ok(res) => all_finite(entries@) && is_top_k(candidates_of(entries@), k as int, res@)
                && res.wf(),
            Err(e) => !all_finite(entries@) && exists|i: int|
                0 <= i < entries@.len() && !f32_bits_finite((#[trigger] entries@[i]).1) && (forall|
                    j: int,
                |
                    0 <= j < i ==> f32_bits_finite((#[trigger] entries@[j]).1)) && e == (
                DataError::NonFiniteDistance { id: entries@[i].0, bits: entries@[i].1 }),
        },
{
    let n = entries.len();
    let mut cands: Vec<Candidate> = Vec::new();
    let mut i: usize = 0;
    while i < n
        invariant
            i <= n,
            n == entries@.len(),
            cands@ == candidates_of(entries@.take(i as int)),
            forall|j: int| 0 <= j < i ==> f32_bits_finite((#[trigger] entries@[j]).1),
        decreases n - i,
    {
        let (id, bits) = entries[i];
        match key_from_bits(id, bits) {
            Ok(key) => {
                cands.push(Candidate { id, dist: key });
                proof {
                    assert(cands@ =~= candidates_of(entries@.take(i + 1)));
                }
            },
            Err(e) => {
                return Err(e);
            },
        }
        i += 1;
    }
    proof {
        assert(entries@.take(n as int) =~= entries@);
    }
    let res = select_top_k(&cands, k, algorithm);
    Ok(res)
}

/// Law: self-recall identity, ranking half. If some scanned candidate has
/// distance zero — as a dataset member equal to the query does — then the
/// first ranked entry has distance zero.
pub proof fn lemma_zero_distance_first(input: Seq<Candidate>, k: int, r: Seq<Candidate>, w: int)
    requires
        is_top_k(input, k, r),
        k >= 1,
        0 <= w < input.len(),
        input[w].dist.bits == 0,
    ensures
        r.len() >= 1,
        r[0].dist.bits == 0,
{
    let c = input[w];
    assert(input.contains(c));
    assert(input.to_multiset().count(c) > 0);
    assert(input.to_multiset().len() == input.len());
    assert(r.len() >= 1);
    if r.to_multiset().count(c) > 0 {
        assert(r.contains(c));
        let i = choose|i: int| 0 <= i < r.len() && r[i] == c;
        lemma_sorted_index(r, 0, i);
    } else {
        assert(input.to_multiset().count(c) > r.to_multiset().count(c));
        assert(cand_le(r[k - 1], c));
        lemma_sorted_index(r, 0, k - 1);
    }
}

/// Law: self-recall identity. A scanned candidate with distance zero and
/// the least identifier among zero-distance candidates is the first
/// ranked entry, exactly.
pub proof fn lemma_self_member_first(input: Seq<Candidate>, k: int, r: Seq<Candidate>, w: int)
    requires
        is_top_k(input, k, r),
        k >= 1,
        0 <= w < input.len(),
        input[w].dist.bits == 0,
        forall|j: int|
            0 <= j < input.len() && (#[trigger] input[j]).dist.bits == 0 ==> input[w].id
                <= input[j].id,
    ensures
        r.len() >= 1,
        r[0] == input[w],
{
    let c = input[w];
    lemma_zero_distance_first(input, k, r, w);
    assert(cand_le(c, r[0])) by {
        assert(r.contains(r[0]));
        assert(r.to_multiset().count(r[0]) > 0);
        assert(input.to_multiset().count(r[0]) > 0);
        assert(input.contains(r[0]));
        let j = choose|j: int| 0 <= j < input.len() && input[j] == r[0];
        assert(input[j].dist.bits == 0);
    }
    assert(cand_le(r[0], c)) by {
        if r.to_multiset().count(c) > 0 {
            assert(r.contains(c));
            let i = choose|i: int| 0 <= i < r.len() && r[i] == c;
            lemma_sorted_index(r, 0, i);
        } else {
            assert(input.to_multiset().count(c) > r.to_multiset().count(c));
            assert(cand_le(r[k - 1], c));
            lemma_sorted_index(r, 0, k - 1);
        }
    }
}

/// Ranking a dataset with pairwise distinct identifiers yields a result
/// with pairwise distinct identifiers: each entry is drawn from the
/// dataset, and no entry is drawn twice.
pub proof fn lemma_top_k_distinct_ids(input: Seq<Candidate>, k: int, r: Seq<Candidate>)
    requires
        is_top_k(input, k, r),
        distinct_ids(input),
    ensures
        distinct_ids(r),
{
    assert forall|i: int, j: int| 0 <= i < j < r.len() implies r[i].id != r[j].id by {
        if r[i].id == r[j].id {
            if r[i] == r[j] {
                let x = r[i];
                r.remove_ensures(i);
                assert(r.remove(i)[j - 1] == x);
                assert(r.remove(i).contains(x));
                assert(r.remove(i).to_multiset() == r.to_multiset().remove(x));
                assert(r.remove(i).to_multiset().count(x) > 0);
                assert(r.contains(x));
                assert(r.to_multiset().count(x) > 0);
                assert(r.to_multiset().remove(x).count(x) == r.to_multiset().count(x) - 1);
                assert(r.to_multiset().count(x) >= 2);
                assert(input.to_multiset().count(x) >= 2);
                assert(input.to_multiset().count(x) > 0);
                assert(input.contains(x));
                let p = choose|p: int| 0 <= p < input.len() && input[p] == x;
                input.remove_ensures(p);
                assert(input.remove(p).to_multiset() == input.to_multiset().remove(x));
                assert(input.remove(p).to_multiset().count(x) > 0);
                assert(input.remove(p).contains(x));
                let q = choose|q: int| 0 <= q < input.remove(p).len() && input.remove(p)[q] == x;
                if q < p {
                    assert(input[q] == x);
                    assert(input[q].id == input[p].id);
                } else {
                    assert(input[q + 1] == x);
                    assert(input[p].id == input[q + 1].id);
                }
            } else {
                let x = r[i];
                let y = r[j];
                assert(r.contains(x));
                assert(r.to_multiset().count(x) > 0);
                assert(input.to_multiset().count(x) > 0);
                assert(input.contains(x));
                assert(r.contains(y));
                assert(r.to_multiset().count(y) > 0);
                assert(input.to_multiset().count(y) > 0);
                assert(input.contains(y));
                let p = choose|p: int| 0 <= p < input.len() && input[p] == x;
                let q = choose|q: int| 0 <= q < input.len() && input[q] == y;
                assert(p != q);
                assert(input[p].id != input[q].id);
            }
        }
    }
}

} // verus!
