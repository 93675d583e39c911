//! The probability normalizer: softmax over a logit vector.
//!
//! The largest logit is subtracted from every logit before exponentiation,
//! for numerical stability; the exponentials are summed left to right; and
//! each probability is its weight divided by that sum.  `softmax_spec`
//! states the whole map from logits to probabilities exactly, over the
//! named IEEE operations and the weight function's own specification.

use vstd::prelude::*;
use crate::exp::{weight_bits, weight_of};
use crate::model::ModelError;
use crate::num::{add_bits, div_bits, num_add, num_div, num_sub, num_gt, greater_than, sub_bits};

verus! {

/// The index of the first maximal entry among the first `n`, scanning left
/// to right and replacing the champion only on a strict IEEE `>`.
pub open spec fn first_max_index(s: Seq<u64>, n: int) -> int
    decreases n,
{
    if n <= 1 {
        0
    } else {
        let m = first_max_index(s, n - 1);
        if num_gt(s[n - 1], s[m]) {
            n - 1
        } else {
            m
        }
    }
}

/// Finds the first maximal entry: the lowest index that no later entry
/// strictly exceeds.
pub fn argmax(v: &Vec<u64>) -> (r: usize)
    requires
        v@.len() >= 1,
    ensures
        r == first_max_index(v@, v@.len() as int),
        0 <= r < v@.len(),
{
    let mut best: usize = 0;
    let mut i: usize = 1;
    while i < v.len()
        invariant
            1 <= i <= v@.len(),
            best < i,
            best == first_max_index(v@, i as int),
        decreases v@.len() - i,
    {
        if greater_than(v[i], v[best]) {
            best = i;
        }
        i = i + 1;
    }
    best
}

/// The left-to-right IEEE sum of the first `n` weights.
pub open spec fn sum_weights(w: Seq<u64>, n: int) -> u64
    decreases n,
{
    if n <= 1 {
        w[0]
    } else {
        add_bits(sum_weights(w, n - 1), w[n - 1])
    }
}

/// The probability vector of a weight vector: each weight divided by the
/// left-to-right sum of all of them.
pub open spec fn probs_of(w: Seq<u64>) -> Seq<u64> {
    Seq::new(w.len(), |i: int| div_bits(w[i], sum_weights(w, w.len() as int)))
}

/// The softmax weights of a logit vector: the weight of every logit less
/// the first maximal one.
pub open spec fn softmax_weights_spec(logits: Seq<u64>) -> Seq<u64> {
    Seq::new(
        logits.len(),
        |i: int| weight_bits(sub_bits(logits[i], logits[first_max_index(logits, logits.len() as int)])),
    )
}

/// The softmax of a logit vector: its shifted weights, each divided by
/// their left-to-right sum.
pub open spec fn softmax_spec(logits: Seq<u64>) -> Seq<u64> {
    probs_of(softmax_weights_spec(logits))
}

/// The softmax weights of a logit vector: the exponential of every logit
/// less the first maximal one.
pub fn softmax_weights(logits: &Vec<u64>) -> (w: Vec<u64>)
    requires
        logits@.len() >= 1,
    ensures
        w@ == softmax_weights_spec(logits@),
{
    let m = argmax(logits);
    let peak = logits[m];
    let mut w: Vec<u64> = Vec::new();
    let mut i: usize = 0;
    while i < logits.len()
        invariant
            logits@.len() >= 1,
            m == first_max_index(logits@, logits@.len() as int),
            0 <= m < logits@.len(),
            peak == logits@[m as int],
            i <= logits@.len(),
            w@.len() == i,
            forall|j: int|
                0 <= j < i ==> w@[j] == weight_bits(
                    sub_bits(logits@[j], logits@[m as int]),
                ),
        decreases logits@.len() - i,
    {
        let shifted = num_sub(logits[i], peak);
        let wi = weight_of(shifted);
        w.push(wi);
        i = i + 1;
    }
    proof {
        assert(w@ =~= softmax_weights_spec(logits@));
    }
    w
}

/// Divides every weight by the running sum of all of them.  Fails exactly
/// on an empty vector, with `DegenerateInput`.
pub fn distribution(weights: &Vec<u64>) -> (r: Result<Vec<u64>, ModelError>)
    ensures
        match r {
            Ok(p) => weights@.len() >= 1 && p@ == probs_of(weights@),
            Err(e) => e == ModelError::DegenerateInput && weights@.len() == 0,
        },
{
    if weights.len() == 0 {
        return Err(ModelError::DegenerateInput);
    }
    let mut total: u64 = weights[0];
    let mut i: usize = 1;
    while i < weights.len()
        invariant
            1 <= i <= weights@.len(),
            total == sum_weights(weights@, i as int),
        decreases weights@.len() - i,
    {
        total = num_add(total, weights[i]);
        i = i + 1;
    }
    let mut p: Vec<u64> = Vec::new();
    let mut j: usize = 0;
    while j < weights.len()
        invariant
            weights@.len() >= 1,
            total == sum_weights(weights@, weights@.len() as int),
            j <= weights@.len(),
            p@.len() == j,
            forall|t: int| 0 <= t < j ==> p@[t] == div_bits(weights@[t], total),
        decreases weights@.len() - j,
    {
        p.push(num_div(weights[j], total));
        j = j + 1;
    }
    proof {
        assert(p@ =~= probs_of(weights@));
    }
    Ok(p)
}

/// Maps a logit vector to a probability distribution: softmax with the
/// first maximal logit subtracted from every logit before exponentiation.
/// Fails exactly on an empty vector, with `DegenerateInput`; otherwise the
/// result is pinned to the logits by `softmax_spec`.
pub fn normalize(logits: &Vec<u64>) -> (r: Result<Vec<u64>, ModelError>)
    ensures
        match r {
            Ok(p) => {
                &&& logits@.len() >= 1
                &&& p@.len() == logits@.len()
                &&& p@ == softmax_spec(logits@)
            },
            Err(e) => e == ModelError::DegenerateInput && logits@.len() == 0,
        },
{
    if logits.len() == 0 {
        return Err(ModelError::DegenerateInput);
    }
    let w = softmax_weights(logits);
    match distribution(&w) {
        Ok(p) => Ok(p),
        Err(e) => {
            proof {
                assert(false);
            }
            Err(e)
        },
    }
}

} // verus!
