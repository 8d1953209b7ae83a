//! Choosing one pattern among a cell's candidates, weighted by how often each
//! occurs in the training grid.

use vstd::prelude::*;
use crate::catalog::Pattern;

verus! {

/// The summed weights of the first `j` candidates.
pub open spec fn candidate_weight(ps: Seq<Pattern>, cands: Seq<usize>, j: nat) -> nat
    decreases j,
{
    if j == 0 {
        0
    } else {
        candidate_weight(ps, cands, (j - 1) as nat) + ps[cands[j - 1] as int].occurrences as nat
    }
}

/// Every candidate names a pattern.
pub open spec fn candidates_ok(ps: Seq<Pattern>, cands: Seq<usize>) -> bool {
    forall|t: int| 0 <= t < cands.len() ==> (#[trigger] cands[t] as int) < ps.len()
}

proof fn lemma_candidate_weight_bound(ps: Seq<Pattern>, cands: Seq<usize>, j: nat)
    requires
        candidates_ok(ps, cands),
        j <= cands.len(),
    ensures
        candidate_weight(ps, cands, j) <= j * (usize::MAX as nat),
    decreases j,
{
    if j > 0 {
        lemma_candidate_weight_bound(ps, cands, (j - 1) as nat);
        assert(((j - 1) as nat) * (usize::MAX as nat) + usize::MAX as nat == j * (usize::MAX as nat))
            by (nonlinear_arith) requires j >= 1;
    }
}


proof fn lemma_small_product(j: nat)
    requires
        j <= usize::MAX,
    ensures
        j * (usize::MAX as nat) <= u128::MAX,
{
    assert(j * (usize::MAX as nat) <= (usize::MAX as nat) * (usize::MAX as nat)) by (nonlinear_arith)
        requires j <= usize::MAX;
    assert((usize::MAX as nat) * (usize::MAX as nat) <= u128::MAX) by (nonlinear_arith);
}

/// The summed weights of all candidates.
pub fn candidate_total(patterns: &Vec<Pattern>, candidates: &Vec<usize>) -> (r: u128)
    requires
        candidates_ok(patterns@, candidates@),
    ensures
        r == candidate_weight(patterns@, candidates@, candidates@.len()),
{
    let mut acc: u128 = 0;
    let mut t: usize = 0;
    while t < candidates.len()
        invariant
            candidates_ok(patterns@, candidates@),
            t <= candidates@.len(),
            acc == candidate_weight(patterns@, candidates@, t as nat),
        decreases candidates@.len() - t,
    {
        proof {
            lemma_candidate_weight_bound(patterns@, candidates@, (t + 1) as nat);
            lemma_small_product((t + 1) as nat);
        }
        acc = acc + patterns[candidates[t]].occurrences as u128;
        t += 1;
    }
    acc
}

/// The position of the first candidate whose running weight exceeds `sample`:
/// with `sample` drawn uniformly below the total, each candidate is chosen
/// with probability proportional to its weight.
pub fn pick_weighted_index(patterns: &Vec<Pattern>, candidates: &Vec<usize>, sample: u128) -> (r:
    usize)
    requires
        candidates_ok(patterns@, candidates@),
        sample < candidate_weight(patterns@, candidates@, candidates@.len()),
    ensures
        r < candidates@.len(),
        candidate_weight(patterns@, candidates@, r as nat) <= sample,
        sample < candidate_weight(patterns@, candidates@, (r + 1) as nat),
{
    let mut acc: u128 = 0;
    let mut t: usize = 0;
    while t < candidates.len()
        invariant
            candidates_ok(patterns@, candidates@),
            sample < candidate_weight(patterns@, candidates@, candidates@.len()),
            t <= candidates@.len(),
            acc == candidate_weight(patterns@, candidates@, t as nat),
            acc <= sample,
        decreases candidates@.len() - t,
    {
        proof {
            lemma_candidate_weight_bound(patterns@, candidates@, (t + 1) as nat);
            lemma_small_product((t + 1) as nat);
        }
        acc = acc + patterns[candidates[t]].occurrences as u128;
        if sample < acc {
            return t;
        }
        t += 1;
    }
    proof {
        assert(false);
    }
    0
}


/// With every weight at least one, the first `j` candidates weigh at least `j`.
pub proof fn lemma_candidate_weight_positive(ps: Seq<Pattern>, cands: Seq<usize>, j: nat)
    requires
        candidates_ok(ps, cands),
        forall|i: int| 0 <= i < ps.len() ==> #[trigger] ps[i].occurrences >= 1,
        j <= cands.len(),
    ensures
        candidate_weight(ps, cands, j) >= j,
    decreases j,
{
    if j > 0 {
        lemma_candidate_weight_positive(ps, cands, (j - 1) as nat);
        assert(ps[cands[j - 1] as int].occurrences >= 1);
    }
}

} // verus!
