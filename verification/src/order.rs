//! Total ordering of candidates.
//!
//! A distance produced by a metric is a finite, non-negative floating-point
//! value. The crate never holds it as a float: it holds the value's IEEE 754
//! bit pattern, a `u32`. For finite non-negative floats the bit patterns
//! order exactly as the values do, so comparing the patterns as unsigned
//! integers is a total order on the distances, with the two zeros collapsed
//! to one by normalization at construction time.

use vstd::prelude::*;
use crate::errors::DataError;

verus! {

/// A total-order key for a non-negative distance, held as the bit pattern
/// of the corresponding `f32` value.
#[derive(Clone, Copy, Debug, PartialEq, Eq, Structural)]
pub struct NonNegativeOrderedFloat {
    pub bits: u32,
}

impl NonNegativeOrderedFloat {
    /// The key ordering: plain unsigned comparison of the bit patterns.
    pub open spec fn spec_le(self, other: Self) -> bool {
        self.bits <= other.bits
    }

    pub fn le(&self, other: &Self) -> (r: bool)
        ensures
            r == self.spec_le(*other),
    {
        self.bits <= other.bits
    }
}

/// One scanned dataset entry: an identifier and its distance key.
#[derive(Clone, Copy, Debug, PartialEq, Eq, Structural)]
pub struct Candidate {
    pub id: u32,
    pub dist: NonNegativeOrderedFloat,
}

/// Candidates order ascending by distance, ties broken by ascending
/// identifier, so that equal keys still compare deterministically.
pub open spec fn cand_le(a: Candidate, b: Candidate) -> bool {
    a.dist.bits < b.dist.bits || (a.dist.bits == b.dist.bits && a.id <= b.id)
}

pub open spec fn cand_lt(a: Candidate, b: Candidate) -> bool {
    cand_le(a, b) && a != b
}

/// `cand_le` as a binary relation value, for vstd's ordering lemmas.
pub open spec fn cand_leq() -> spec_fn(Candidate, Candidate) -> bool {
    |a: Candidate, b: Candidate| cand_le(a, b)
}

/// The candidate order is total: reflexive, transitive, antisymmetric and
/// strongly connected.
pub proof fn lemma_cand_le_total()
    ensures
        vstd::relations::total_ordering(cand_leq()),
{
}

pub fn cand_le_exec(a: &Candidate, b: &Candidate) -> (r: bool)
    ensures
        r == cand_le(*a, *b),
{
    a.dist.bits < b.dist.bits || (a.dist.bits == b.dist.bits && a.id <= b.id)
}

pub fn cand_lt_exec(a: &Candidate, b: &Candidate) -> (r: bool)
    ensures
        r == cand_lt(*a, *b),
{
    a.dist.bits < b.dist.bits || (a.dist.bits == b.dist.bits && a.id < b.id)
}

/// Pairwise distinct identifiers, as a dataset's entries have.
pub open spec fn distinct_ids(s: Seq<Candidate>) -> bool {
    forall|i: int, j: int| 0 <= i < j < s.len() ==> (#[trigger] s[i]).id != (#[trigger] s[j]).id
}

/// A single-precision pattern is finite exactly when its exponent bits
/// are not all ones; all-ones marks NaN and the infinities.
pub open spec fn f32_bits_finite(bits: u32) -> bool {
    bits & 0x7f80_0000 != 0x7f80_0000
}

/// The two IEEE zeros stand for the same distance: the negative zero's
/// pattern collapses onto the positive one's, so they compare equal.
pub open spec fn normalize_zero_bits(bits: u32) -> u32 {
    if bits == 0x8000_0000 {
        0
    } else {
        bits
    }
}

/// Build the total-order key for an oracle-produced distance from its bit
/// pattern, rejecting NaN and the infinities as a data error.
pub fn key_from_bits(id: u32, bits: u32) -> (r: Result<NonNegativeOrderedFloat, DataError>)
    ensures
        match r {
            Ok(key) => f32_bits_finite(bits) && key.bits == normalize_zero_bits(bits),
            Err(e) => !f32_bits_finite(bits) && e == (DataError::NonFiniteDistance { id, bits }),
        },
{
    if bits & 0x7f80_0000 == 0x7f80_0000 {
        Err(DataError::NonFiniteDistance { id, bits })
    } else if bits == 0x8000_0000 {
        Ok(NonNegativeOrderedFloat { bits: 0 })
    } else {
        Ok(NonNegativeOrderedFloat { bits })
    }
}

} // verus!
