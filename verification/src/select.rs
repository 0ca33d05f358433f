//! Bounded top-k selection.
//!
//! `select_top_k` consumes a finite sequence of candidates once, in order,
//! and returns the `min(k, n)` smallest under the total candidate order,
//! ascending, without ever holding more than O(k) candidates of its own.
//! Two algorithms implement the contract: a bounded sorted buffer that
//! evicts its worst entry whenever a better candidate arrives, and a
//! median-threshold buffer that batches evictions. Both are proved to
//! return the one sequence `is_top_k` admits, so they agree exactly.

use vstd::prelude::*;
use vstd::multiset::Multiset;
use vstd::relations::sorted_by;
use vstd::seq_lib::lemma_multiset_commutative;
use vstd::math::min;
use crate::order::Candidate;
use crate::order::cand_le;
use crate::order::cand_lt;
use crate::order::cand_leq;
use crate::order::cand_le_exec;
use crate::order::cand_lt_exec;
use crate::order::lemma_cand_le_total;

verus! {

broadcast use
    vstd::multiset::group_multiset_axioms,
    vstd::seq_lib::group_to_multiset_ensures;

/// A sequence sorted under the candidate order.
pub open spec fn cand_sorted(s: Seq<Candidate>) -> bool {
    sorted_by(s, cand_leq())
}

/// What it means for `r` to be the top-k selection of the multiset `m`:
/// `r` holds `min(k, |m|)` entries of `m`, in ascending order, and every
/// entry of `m` left out of `r` is at least `r`'s maximum. Only the
/// multiset of the input matters, so any reordering of an input sequence
/// has the same (unique) selection.
pub open spec fn is_top_k_of(m: Multiset<Candidate>, k: int, r: Seq<Candidate>) -> bool {
    &&& r.len() == min(k, m.len() as int)
    &&& cand_sorted(r)
    &&& r.to_multiset().subset_of(m)
    &&& forall|c: Candidate|
        #![trigger m.count(c)]
        #![trigger r.to_multiset().count(c)]
        m.count(c) > r.to_multiset().count(c) ==> (r.len() == k && (k > 0 ==> cand_le(
            r[k - 1],
            c,
        )))
}

/// Top-k selection over an input sequence.
pub open spec fn is_top_k(input: Seq<Candidate>, k: int, r: Seq<Candidate>) -> bool {
    is_top_k_of(input.to_multiset(), k, r)
}

/// The canonical selection: sort the input and keep the first `min(k, n)`.
pub open spec fn top_k_spec(s: Seq<Candidate>, k: int) -> Seq<Candidate> {
    s.sort_by(cand_leq()).take(min(k, s.len() as int))
}

/// An ordered selection of at most k candidates, ascending by distance,
/// ties broken by ascending identifier.
#[derive(Clone, Debug, PartialEq, Eq)]
pub struct TopKResult {
    pub items: Vec<Candidate>,
}

impl View for TopKResult {
    type V = Seq<Candidate>;

    open spec fn view(&self) -> Seq<Candidate> {
        self.items@
    }
}

impl TopKResult {
    /// The invariant every selector-produced result has.
    pub open spec fn wf(&self) -> bool {
        cand_sorted(self@)
    }

    pub fn len(&self) -> (n: usize)
        ensures
            n == self@.len(),
    {
        self.items.len()
    }
}

/// Which of the two interchangeable selection algorithms to run.
#[derive(Clone, Copy, Debug, PartialEq, Eq, Structural)]
pub enum SelectorAlgorithm {
    Heap,
    MedianThreshold,
}

/// Use the sortedness of `s` at a pair of positions.
pub proof fn lemma_sorted_index(s: Seq<Candidate>, i: int, j: int)
    requires
        cand_sorted(s),
        0 <= i <= j < s.len(),
    ensures
        cand_le(s[i], s[j]),
{
    if i < j {
        assert(cand_leq()(s[i], s[j]));
    }
}

/// A prefix of a sorted sequence is a top-k selection of its multiset.
proof fn lemma_sorted_take(m: Multiset<Candidate>, k: int, s: Seq<Candidate>)
    requires
        0 <= k,
        cand_sorted(s),
        s.to_multiset() == m,
    ensures
        is_top_k_of(m, k, s.take(min(k, s.len() as int))),
{
    lemma_cand_le_total();
    let cut = min(k, s.len() as int);
    let r = s.take(cut);
    let rest = s.skip(cut);
    assert(s =~= r + rest);
    lemma_multiset_commutative(r, rest);
    assert(s.to_multiset().len() == s.len());
    assert(r.len() == min(k, m.len() as int));
    assert(cand_sorted(r)) by {
        assert forall|i: int, j: int| 0 <= i < j < r.len() implies #[trigger] cand_leq()(
            r[i],
            r[j],
        ) by {
            lemma_sorted_index(s, i, j);
        }
    }
    assert(r.to_multiset().subset_of(m)) by {
        assert(forall|c: Candidate| #[trigger]
            m.count(c) == r.to_multiset().count(c) + rest.to_multiset().count(c));
    }
    assert forall|c: Candidate| m.count(c) > r.to_multiset().count(c) implies (r.len() == k && (k
        > 0 ==> cand_le(r[k - 1], c))) by {
        assert(rest.to_multiset().count(c) > 0);
        assert(rest.contains(c));
        let j = choose|j: int| 0 <= j < rest.len() && rest[j] == c;
        assert(rest.len() > 0);
        assert(s.len() > cut);
        assert(r.len() == k);
        if k > 0 {
            assert(s[cut + j] == c);
            lemma_sorted_index(s, k - 1, cut + j);
        }
    }
}

/// There is at most one top-k selection of a multiset.
pub proof fn lemma_top_k_unique(m: Multiset<Candidate>, k: int, r1: Seq<Candidate>, r2: Seq<
    Candidate,
>)
    requires
        is_top_k_of(m, k, r1),
        is_top_k_of(m, k, r2),
    ensures
        r1 == r2,
    decreases r1.len(),
{
    lemma_cand_le_total();
    if r1.len() == 0 {
        assert(r1 =~= r2);
    } else {
        let a = r1[0];
        let b = r2[0];
        assert(r1.contains(a));
        assert(r2.contains(b));
        assert(r1.to_multiset().count(a) > 0);
        assert(r2.to_multiset().count(b) > 0);
        assert(m.count(a) > 0);
        assert(m.count(b) > 0);
        assert(cand_le(b, a)) by {
            if r2.to_multiset().count(a) > 0 {
                assert(r2.contains(a));
                let i = choose|i: int| 0 <= i < r2.len() && r2[i] == a;
                lemma_sorted_index(r2, 0, i);
            } else {
                assert(m.count(a) > r2.to_multiset().count(a));
                assert(cand_le(r2[k - 1], a));
                lemma_sorted_index(r2, 0, k - 1);
            }
        }
        assert(cand_le(a, b)) by {
            if r1.to_multiset().count(b) > 0 {
                assert(r1.contains(b));
                let i = choose|i: int| 0 <= i < r1.len() && r1[i] == b;
                lemma_sorted_index(r1, 0, i);
            } else {
                assert(m.count(b) > r1.to_multiset().count(b));
                assert(cand_le(r1[k - 1], b));
                lemma_sorted_index(r1, 0, k - 1);
            }
        }
        assert(a == b);
        let m2 = m.remove(a);
        let t1 = r1.drop_first();
        let t2 = r2.drop_first();
        assert(t1 =~= r1.remove(0));
        assert(t2 =~= r2.remove(0));
        assert(t1.to_multiset() == r1.to_multiset().remove(a));
        assert(t2.to_multiset() == r2.to_multiset().remove(a));
        assert(is_top_k_of(m2, k - 1, t1)) by {
            lemma_top_k_peel(m, k, r1);
        }
        assert(is_top_k_of(m2, k - 1, t2)) by {
            lemma_top_k_peel(m, k, r2);
        }
        lemma_top_k_unique(m2, k - 1, t1, t2);
        assert(r1 =~= r2) by {
            assert(forall|i: int|
                1 <= i < r1.len() ==> r1[i] == t1[i - 1] && r2[i] == t2[i - 1]);
        }
    }
}

/// Removing the head of a top-k selection leaves a top-(k-1) selection of
/// the multiset without that element.
proof fn lemma_top_k_peel(m: Multiset<Candidate>, k: int, r: Seq<Candidate>)
    requires
        is_top_k_of(m, k, r),
        r.len() > 0,
    ensures
        is_top_k_of(m.remove(r[0]), k - 1, r.drop_first()),
{
    lemma_cand_le_total();
    let a = r[0];
    let m2 = m.remove(a);
    let t = r.drop_first();
    assert(r.contains(a));
    assert(r.to_multiset().count(a) > 0);
    assert(m.count(a) > 0);
    assert(t =~= r.remove(0));
    assert(t.to_multiset() == r.to_multiset().remove(a));
    assert(m2.len() == m.len() - 1);
    assert(t.len() == min(k - 1, m2.len() as int));
    assert(cand_sorted(t)) by {
        assert forall|i: int, j: int| 0 <= i < j < t.len() implies #[trigger] cand_leq()(
            t[i],
            t[j],
        ) by {
            lemma_sorted_index(r, i + 1, j + 1);
        }
    }
    assert(t.to_multiset().subset_of(m2));
    assert forall|c: Candidate| m2.count(c) > t.to_multiset().count(c) implies (t.len() == k - 1
        && (k - 1 > 0 ==> cand_le(t[k - 2], c))) by {
        assert(m.count(c) > r.to_multiset().count(c));
        assert(r.len() == k);
        if k - 1 > 0 {
            assert(t[k - 2] == r[k - 1]);
        }
    }
}

/// The canonical selection is a top-k selection; together with
/// `lemma_top_k_unique` it is the only one.
pub proof fn lemma_top_k_spec_is_top_k(s: Seq<Candidate>, k: int)
    requires
        0 <= k,
    ensures
        is_top_k(s, k, top_k_spec(s, k)),
{
    lemma_cand_le_total();
    s.lemma_sort_by_ensures(cand_leq());
    let sorted = s.sort_by(cand_leq());
    assert(sorted.to_multiset().len() == sorted.len());
    assert(s.to_multiset().len() == s.len());
    assert(sorted.len() == s.len());
    lemma_sorted_take(s.to_multiset(), k, sorted);
}

/// Growing the input while the selection is not yet full: the new element
/// always joins the selection.
proof fn lemma_step_insert(m: Multiset<Candidate>, k: int, g: Seq<Candidate>, c: Candidate, r: Seq<
    Candidate,
>)
    requires
        is_top_k_of(m, k, g),
        g.len() < k,
        cand_sorted(r),
        r.to_multiset() == g.to_multiset().insert(c),
    ensures
        is_top_k_of(m.insert(c), k, r),
{
    assert(r.to_multiset().len() == g.to_multiset().len() + 1);
    assert(r.len() == g.len() + 1);
    assert(m.len() == g.len());
    assert(r.to_multiset().subset_of(m.insert(c)));
    assert forall|c2: Candidate| m.insert(c).count(c2) > r.to_multiset().count(c2) implies (r.len()
        == k && (k > 0 ==> cand_le(r[k - 1], c2))) by {
        assert(m.count(c2) > g.to_multiset().count(c2));
    }
}

/// Growing the input with an element no better than the selection's
/// maximum: the selection stands.
proof fn lemma_step_skip(m: Multiset<Candidate>, k: int, g: Seq<Candidate>, c: Candidate)
    requires
        is_top_k_of(m, k, g),
        g.len() == k,
        k > 0 ==> cand_le(g[k - 1], c),
    ensures
        is_top_k_of(m.insert(c), k, g),
{
    assert(g.len() == min(k, m.insert(c).len() as int));
    assert(g.to_multiset().subset_of(m.insert(c)));
}

/// Growing a full selection with a better element: it displaces the
/// selection's maximum.
proof fn lemma_step_evict(m: Multiset<Candidate>, k: int, g: Seq<Candidate>, c: Candidate, r: Seq<
    Candidate,
>)
    requires
        is_top_k_of(m, k, g),
        g.len() == k,
        k > 0,
        cand_lt(c, g[k - 1]),
        cand_sorted(r),
        r.to_multiset() == g.to_multiset().insert(c).remove(g[k - 1]),
    ensures
        is_top_k_of(m.insert(c), k, r),
{
    lemma_cand_le_total();
    let w = g[k - 1];
    assert(g.contains(w));
    assert(g.to_multiset().count(w) > 0);
    assert(r.to_multiset().len() == g.to_multiset().len());
    assert(r.len() == k);
    assert(r.len() == min(k, m.insert(c).len() as int));
    assert(r.to_multiset().subset_of(m.insert(c)));
    assert forall|c2: Candidate| m.insert(c).count(c2) > r.to_multiset().count(c2) implies (r.len()
        == k && (k > 0 ==> cand_le(r[k - 1], c2))) by {
        // The maximum of `r` is at most `w`: every entry of `r` is either
        // `c` or an entry of `g`, both at most `w`.
        assert(cand_le(r[k - 1], w)) by {
            let x = r[k - 1];
            assert(r.contains(x));
            assert(r.to_multiset().count(x) > 0);
            if x == c {
                assert(cand_le(x, w));
            } else {
                assert(g.to_multiset().count(x) > 0);
                assert(g.contains(x));
                let i = choose|i: int| 0 <= i < g.len() && g[i] == x;
                lemma_sorted_index(g, i, k - 1);
            }
        }
        if c2 == w {
            // `w` itself may be left over; it bounds `r` from above.
        } else if c2 == c {
            // The count of `c` grew on both sides; a leftover `c` forces a
            // leftover in the old selection, contradicting `c < w`.
            assert(m.count(c) > g.to_multiset().count(c));
            assert(cand_le(w, c));
            assert(false);
        } else {
            assert(m.count(c2) > g.to_multiset().count(c2));
            assert(cand_le(w, c2));
        }
    }
}

/// A top-k selection of the whole input is also the top-k selection of any
/// sub-multiset that still contains it.
proof fn lemma_top_k_of_sub(
    m: Multiset<Candidate>,
    k: int,
    g: Seq<Candidate>,
    b: Multiset<Candidate>,
)
    requires
        is_top_k_of(m, k, g),
        b.subset_of(m),
        g.to_multiset().subset_of(b),
    ensures
        is_top_k_of(b, k, g),
{
    assert(b.len() >= g.to_multiset().len()) by {
        assert(b.sub(g.to_multiset()).len() == b.len() - g.to_multiset().len());
    }
    assert(m.len() >= b.len()) by {
        assert(m.sub(b).len() == m.len() - b.len());
    }
    assert(g.len() == min(k, b.len() as int));
    assert forall|c: Candidate| b.count(c) > g.to_multiset().count(c) implies (g.len() == k && (k
        > 0 ==> cand_le(g[k - 1], c))) by {
        assert(m.count(c) >= b.count(c));
    }
}

/// Law: the two selection algorithms return identical results. Any two
/// top-k selections of one input are the same sequence, entry for entry,
/// because ties are broken by identifier.
pub proof fn lemma_algorithms_agree(
    input: Seq<Candidate>,
    k: int,
    r1: Seq<Candidate>,
    r2: Seq<Candidate>,
)
    requires
        is_top_k(input, k, r1),
        is_top_k(input, k, r2),
    ensures
        r1 == r2,
{
    lemma_top_k_unique(input.to_multiset(), k, r1, r2);
}

/// Law: replaying the selection on a reordering of the input — any
/// sequence with the same candidates, as a multiset — returns the same
/// result, identifiers included; the outcome never depends on input
/// order.
pub proof fn lemma_replay_reordered(
    s1: Seq<Candidate>,
    s2: Seq<Candidate>,
    k: int,
    r1: Seq<Candidate>,
    r2: Seq<Candidate>,
)
    requires
        s1.to_multiset() == s2.to_multiset(),
        is_top_k(s1, k, r1),
        is_top_k(s2, k, r2),
    ensures
        r1 == r2,
{
    lemma_top_k_unique(s1.to_multiset(), k, r1, r2);
}

/// Inserting anywhere in a sequence inserts into its multiset.
proof fn lemma_insert_to_multiset(s: Seq<Candidate>, j: int, c: Candidate)
    requires
        0 <= j <= s.len(),
    ensures
        s.insert(j, c).to_multiset() == s.to_multiset().insert(c),
{
    let pre = s.subrange(0, j);
    let post = s.subrange(j, s.len() as int);
    assert(s =~= pre + post);
    lemma_multiset_commutative(pre, post);
    lemma_multiset_commutative(pre.push(c), post);
    assert(pre.push(c).to_multiset() == pre.to_multiset().insert(c));
    assert(s.insert(j, c).to_multiset() =~= s.to_multiset().insert(c));
}

/// Insert `c` into the sorted buffer, keeping it sorted. When `c` sorts
/// strictly before the buffer's last entry, that entry stays last.
fn insert_sorted(buf: &mut Vec<Candidate>, c: Candidate)
    requires
        cand_sorted(old(buf)@),
    ensures
        cand_sorted(final(buf)@),
        final(buf)@.len() == old(buf)@.len() + 1,
        final(buf)@.to_multiset() == old(buf)@.to_multiset().insert(c),
        old(buf)@.len() > 0 && cand_lt(c, old(buf)@.last()) ==> final(buf)@.last() == old(
            buf,
        )@.last(),
{
    let ghost s = buf@;
    let mut j: usize = 0;
    while j < buf.len() && cand_le_exec(&buf[j], &c)
        invariant
            buf@ == s,
            j <= s.len(),
            cand_sorted(s),
            forall|t: int| 0 <= t < j ==> cand_le(#[trigger] s[t], c),
        decreases s.len() - j,
    {
        j += 1;
    }
    buf.insert(j, c);
    proof {
        lemma_cand_le_total();
        lemma_insert_to_multiset(s, j as int, c);
        s.insert_ensures(j as int, c);
        assert(j < s.len() ==> cand_le(c, s[j as int]));
        assert(cand_sorted(buf@)) by {
            assert forall|p: int, q: int| 0 <= p < q < buf@.len() implies #[trigger] cand_leq()(
                buf@[p],
                buf@[q],
            ) by {
                let jj = j as int;
                if q < jj {
                    lemma_sorted_index(s, p, q);
                } else if p > jj {
                    lemma_sorted_index(s, p - 1, q - 1);
                } else if p == jj && q > jj {
                    lemma_sorted_index(s, jj, q - 1);
                } else if p < jj && q == jj {
                    assert(cand_le(s[p], c));
                } else if p < jj && q > jj {
                    lemma_sorted_index(s, p, q - 1);
                }
            }
        }
        if s.len() > 0 && cand_lt(c, s.last()) {
            assert(j < s.len()) by {
                if j == s.len() {
                    assert(cand_le(s[s.len() - 1], c));
                }
            }
            assert(buf@.last() == s.last());
        }
    }
}

/// The streaming bounded-buffer selector. It keeps the k smallest
/// candidates seen so far in ascending order; when a candidate better than
/// the current worst arrives, the worst is evicted and the newcomer takes
/// its ordered place. One pass, never more than k + 1 held entries.
pub fn select_top_k_heap(candidates: &Vec<Candidate>, k: usize) -> (r: TopKResult)
    ensures
        is_top_k(candidates@, k as int, r@),
        r.wf(),
{
    let ghost all = candidates@;
    let mut buf: Vec<Candidate> = Vec::new();
    proof {
        assert(all.take(0) =~= Seq::<Candidate>::empty());
        assert(buf@.to_multiset().len() == 0);
        assert(buf@.to_multiset() =~= Multiset::empty());
        assert(Seq::<Candidate>::empty().to_multiset().len() == 0);
        assert(Seq::<Candidate>::empty().to_multiset() =~= Multiset::empty());
    }
    let n = candidates.len();
    let mut i: usize = 0;
    while i < n
        invariant
            n == all.len(),
            candidates@ == all,
            i <= n,
            is_top_k(all.take(i as int), k as int, buf@),
        decreases n - i,
    {
        let c = candidates[i];
        let ghost seen = all.take(i as int);
        let ghost m = seen.to_multiset();
        proof {
            assert(all.take(i + 1) =~= seen.push(c));
            assert(seen.push(c).to_multiset() == m.insert(c));
        }
        let ghost g = buf@;
        if buf.len() < k {
            insert_sorted(&mut buf, c);
            proof {
                lemma_step_insert(m, k as int, g, c, buf@);
            }
        } else if k > 0 && cand_lt_exec(&c, &buf[k - 1]) {
            proof {
                assert(g.len() == k);
                assert(g.last() == g[k - 1]);
            }
            insert_sorted(&mut buf, c);
            let ghost mid = buf@;
            let _ = buf.pop();
            proof {
                assert(mid.last() == g[k - 1]);
                assert(buf@ =~= mid.remove(mid.len() - 1));
                assert(buf@.to_multiset() == mid.to_multiset().remove(g[k - 1]));
                assert(cand_sorted(buf@)) by {
                    assert forall|p: int, q: int| 0 <= p < q < buf@.len() implies
                        #[trigger] cand_leq()(buf@[p], buf@[q]) by {
                        lemma_sorted_index(mid, p, q);
                    }
                }
                lemma_step_evict(m, k as int, g, c, buf@);
            }
        } else {
            proof {
                lemma_cand_le_total();
                if k > 0 {
                    assert(g.len() == k);
                    assert(cand_le(g[k - 1], c));
                }
                lemma_step_skip(m, k as int, g, c);
            }
        }
        i += 1;
    }
    proof {
        assert(all.take(n as int) =~= all);
    }
    TopKResult { items: buf }
}

/// How the canonical selection changes when the input grows by one
/// candidate: the new selection draws only from the old selection plus the
/// newcomer, and its maximum never rises.
proof fn lemma_top_k_grow(s: Seq<Candidate>, k: int, c: Candidate)
    requires
        0 <= k,
    ensures
        top_k_spec(s.push(c), k).to_multiset().subset_of(
            top_k_spec(s, k).to_multiset().insert(c),
        ),
        s.len() >= k && k > 0 ==> top_k_spec(s.push(c), k).len() == k && cand_le(
            top_k_spec(s.push(c), k).last(),
            top_k_spec(s, k).last(),
        ),
{
    lemma_cand_le_total();
    lemma_top_k_spec_is_top_k(s, k);
    lemma_top_k_spec_is_top_k(s.push(c), k);
    let g = top_k_spec(s, k);
    let g2 = top_k_spec(s.push(c), k);
    let m = s.to_multiset();
    assert(s.push(c).to_multiset() == m.insert(c));
    if g.len() < k {
        let r = g.push(c).sort_by(cand_leq());
        g.push(c).lemma_sort_by_ensures(cand_leq());
        assert(r.to_multiset() == g.to_multiset().insert(c));
        lemma_step_insert(m, k, g, c, r);
        lemma_top_k_unique(m.insert(c), k, g2, r);
    } else if k == 0 {
        assert(g2.len() == 0);
        assert(g2.to_multiset().len() == 0);
        assert(forall|x: Candidate| g2.to_multiset().count(x) == 0);
    } else {
        let w = g[k - 1];
        assert(w == g.last());
        assert(g.contains(w));
        assert(g.to_multiset().count(w) > 0);
        if cand_le(w, c) {
            lemma_step_skip(m, k, g, c);
            lemma_top_k_unique(m.insert(c), k, g2, g);
            assert(g2.to_multiset().subset_of(g.to_multiset().insert(c)));
        } else {
            assert(cand_lt(c, w));
            let base = g.drop_last();
            let r = base.push(c).sort_by(cand_leq());
            base.push(c).lemma_sort_by_ensures(cand_leq());
            assert(base =~= g.remove(k - 1));
            assert(base.to_multiset() == g.to_multiset().remove(w));
            assert(r.to_multiset() =~= g.to_multiset().insert(c).remove(w));
            lemma_step_evict(m, k, g, c, r);
            lemma_top_k_unique(m.insert(c), k, g2, r);
            assert(g2.to_multiset().subset_of(g.to_multiset().insert(c)));
            assert(cand_le(g2.last(), w)) by {
                let x = g2.last();
                assert(g2.contains(x));
                assert(g2.to_multiset().count(x) > 0);
                if x == c {
                } else {
                    assert(g.to_multiset().count(x) > 0);
                    assert(g.contains(x));
                    let i = choose|i: int| 0 <= i < g.len() && g[i] == x;
                    lemma_sorted_index(g, i, k - 1);
                }
            }
        }
    }
}

/// Insertion sort: a fresh, sorted copy of the buffer.
fn sort_candidates(v: &Vec<Candidate>) -> (out: Vec<Candidate>)
    ensures
        cand_sorted(out@),
        out@.to_multiset() == v@.to_multiset(),
        out@.len() == v@.len(),
{
    let mut out: Vec<Candidate> = Vec::new();
    proof {
        assert(v@.take(0) =~= Seq::<Candidate>::empty());
        assert(out@.to_multiset().len() == 0);
        assert(Seq::<Candidate>::empty().to_multiset().len() == 0);
        assert(out@.to_multiset() =~= Seq::<Candidate>::empty().to_multiset());
    }
    let n = v.len();
    let mut i: usize = 0;
    while i < n
        invariant
            i <= n,
            n == v@.len(),
            cand_sorted(out@),
            out@.to_multiset() == v@.take(i as int).to_multiset(),
            out@.len() == i,
        decreases n - i,
    {
        proof {
            assert(v@.take(i + 1) =~= v@.take(i as int).push(v@[i as int]));
        }
        insert_sorted(&mut out, v[i]);
        i += 1;
    }
    proof {
        assert(v@.take(n as int) =~= v@);
    }
    out
}

/// The median-threshold selector. The buffer grows to 2k entries before
/// it is rebalanced down to its k smallest; the worst survivor — the
/// entry at rank k - 1 — becomes the low-water threshold, and any later
/// candidate at or beyond it (distance and identifier tie-break alike) is
/// discarded unseen. One final sort of the at-most-2k buffer yields the
/// answer. Batching the evictions this way trades the per-item cost of
/// the bounded-buffer selector for a few rebalances.
pub fn select_top_k_median(candidates: &Vec<Candidate>, k: usize) -> (r: TopKResult)
    ensures
        is_top_k(candidates@, k as int, r@),
        r.wf(),
{
    let ghost all = candidates@;
    if k == 0 {
        let empty_result = TopKResult { items: Vec::new() };
        proof {
            assert(empty_result@.to_multiset().len() == 0);
            assert(forall|x: Candidate| empty_result@.to_multiset().count(x) == 0);
        }
        return empty_result;
    }
    let mut buf: Vec<Candidate> = Vec::new();
    let mut threshold: Option<Candidate> = None;
    let n = candidates.len();
    let mut i: usize = 0;
    proof {
        assert(all.take(0) =~= Seq::<Candidate>::empty());
        assert(buf@.to_multiset().len() == 0);
        assert(forall|x: Candidate| buf@.to_multiset().count(x) == 0);
        lemma_top_k_spec_is_top_k(all.take(0), k as int);
        assert(top_k_spec(all.take(0), k as int).len() == 0);
        assert(top_k_spec(all.take(0), k as int).to_multiset().len() == 0);
        assert(forall|x: Candidate|
            top_k_spec(all.take(0), k as int).to_multiset().count(x) == 0);
    }
    while i < n
        invariant
            1 <= k,
            i <= n,
            n == all.len(),
            candidates@ == all,
            buf@.to_multiset().subset_of(all.take(i as int).to_multiset()),
            top_k_spec(all.take(i as int), k as int).to_multiset().subset_of(
                buf@.to_multiset(),
            ),
            threshold is Some ==> all.take(i as int).len() >= k && cand_le(
                top_k_spec(all.take(i as int), k as int).last(),
                threshold->Some_0,
            ),
        decreases n - i,
    {
        let c = candidates[i];
        let ghost seen = all.take(i as int);
        let ghost m = seen.to_multiset();
        let ghost g = top_k_spec(seen, k as int);
        proof {
            assert(all.take(i + 1) =~= seen.push(c));
            assert(seen.push(c).to_multiset() == m.insert(c));
            lemma_top_k_spec_is_top_k(seen, k as int);
            lemma_top_k_spec_is_top_k(seen.push(c), k as int);
        }
        let mut keep = true;
        if let Some(t) = &threshold {
            if cand_le_exec(t, &c) {
                keep = false;
            }
        }
        if keep {
            if buf.len() >= k && buf.len() - k >= k {
                // Rebalance: keep the k smallest buffered entries; the
                // worst survivor becomes the new threshold.
                let mut rebalanced = sort_candidates(&buf);
                let ghost sorted_all = rebalanced@;
                rebalanced.truncate(k);
                proof {
                    lemma_cand_le_total();
                    assert(rebalanced@ =~= sorted_all.take(k as int));
                    lemma_sorted_take(buf@.to_multiset(), k as int, sorted_all);
                    assert(rebalanced@ =~= sorted_all.take(
                        min(k as int, sorted_all.len() as int),
                    ));
                    lemma_top_k_of_sub(m, k as int, g, buf@.to_multiset());
                    lemma_top_k_unique(buf@.to_multiset(), k as int, rebalanced@, g);
                    assert(seen.to_multiset().len() >= buf@.len()) by {
                        assert(seen.to_multiset().sub(buf@.to_multiset()).len()
                            == seen.to_multiset().len() - buf@.to_multiset().len());
                    }
                }
                let new_threshold = rebalanced[k - 1];
                proof {
                    assert(rebalanced@[k - 1] == g.last());
                }
                threshold = Some(new_threshold);
                buf = rebalanced;
            }
            let ghost before_push = buf@;
            buf.push(c);
            proof {
                assert(buf@ == before_push.push(c));
                assert(buf@.to_multiset() == before_push.to_multiset().insert(c));
                lemma_top_k_grow(seen, k as int, c);
                let g2 = top_k_spec(seen.push(c), k as int);
                assert(g2.to_multiset().subset_of(buf@.to_multiset())) by {
                    assert(forall|x: Candidate| #![trigger g2.to_multiset().count(x)]
                        g2.to_multiset().count(x) <= g.to_multiset().insert(c).count(x)
                            <= buf@.to_multiset().count(x));
                }
                assert(buf@.to_multiset().subset_of(seen.push(c).to_multiset())) by {
                    assert(forall|x: Candidate| #![trigger buf@.to_multiset().count(x)]
                        buf@.to_multiset().count(x) <= m.insert(c).count(x));
                }
                if threshold is Some {
                    lemma_cand_le_total();
                    assert(seen.len() >= k);
                    assert(cand_le(g2.last(), g.last()));
                    assert(cand_le(g2.last(), threshold->Some_0));
                }
            }
        } else {
            proof {
                lemma_cand_le_total();
                let t = threshold->Some_0;
                assert(cand_le(t, c));
                assert(seen.len() >= k);
                assert(g.len() == k);
                assert(cand_le(g[k - 1], c));
                lemma_step_skip(m, k as int, g, c);
                lemma_top_k_spec_is_top_k(seen.push(c), k as int);
                lemma_top_k_unique(
                    m.insert(c),
                    k as int,
                    top_k_spec(seen.push(c), k as int),
                    g,
                );
                assert(buf@.to_multiset().subset_of(seen.push(c).to_multiset())) by {
                    assert(forall|x: Candidate| #![trigger buf@.to_multiset().count(x)]
                        buf@.to_multiset().count(x) <= m.insert(c).count(x));
                }
            }
        }
        i += 1;
    }
    proof {
        assert(all.take(n as int) =~= all);
    }
    let mut result = sort_candidates(&buf);
    let ghost sorted_all = result@;
    result.truncate(k);
    proof {
        lemma_cand_le_total();
        lemma_top_k_spec_is_top_k(all, k as int);
        let g = top_k_spec(all, k as int);
        lemma_sorted_take(buf@.to_multiset(), k as int, sorted_all);
        assert(result@ =~= sorted_all.take(min(k as int, sorted_all.len() as int)));
        lemma_top_k_of_sub(all.to_multiset(), k as int, g, buf@.to_multiset());
        lemma_top_k_unique(buf@.to_multiset(), k as int, result@, g);
        assert(cand_sorted(result@)) by {
            assert forall|p: int, q: int| 0 <= p < q < result@.len() implies
                #[trigger] cand_leq()(result@[p], result@[q]) by {
                lemma_sorted_index(sorted_all, p, q);
            }
        }
    }
    TopKResult { items: result }
}

/// Run the configured selection algorithm. Both algorithms meet the same
/// exact contract, so the choice never changes the answer.
pub fn select_top_k(candidates: &Vec<Candidate>, k: usize, algorithm: SelectorAlgorithm) -> (r:
    TopKResult)
    ensures
        is_top_k(candidates@, k as int, r@),
        r.wf(),
{
    match algorithm {
        SelectorAlgorithm::Heap => select_top_k_heap(candidates, k),
        SelectorAlgorithm::MedianThreshold => select_top_k_median(candidates, k),
    }
}

} // verus!
