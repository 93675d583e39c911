//! The predictor: scoring, normalization, and selection of the most
//! probable class, with a deterministic first-wins tie-break.

use vstd::prelude::*;
use crate::model::{Model, ModelError};
use crate::num::{lemma_gt_through_equal, lemma_gt_trans, nan_bits, num_gt};
use crate::score::{row_score, score};
use crate::softmax::{argmax, first_max_index, normalize, softmax_spec};

verus! {

/// The outcome of one inference call: the selected class label, its index,
/// the full probability distribution over classes, and the raw logits, the
/// latter exposed for diagnostics.
#[derive(Debug)]
pub struct Prediction {
    pub label: Vec<u8>,
    pub class_index: usize,
    pub probabilities: Vec<u64>,
    pub logits: Vec<u64>,
}

/// A byte-for-byte copy.
pub fn copy_bytes(src: &Vec<u8>) -> (r: Vec<u8>)
    ensures
        r@ == src@,
{
    let mut out: Vec<u8> = Vec::new();
    let mut i: usize = 0;
    while i < src.len()
        invariant
            i <= src@.len(),
            out@ == src@.subrange(0, i as int),
        decreases src@.len() - i,
    {
        out.push(src[i]);
        proof {
            assert(out@ =~= src@.subrange(0, i as int + 1));
        }
        i = i + 1;
    }
    proof {
        assert(src@.subrange(0, src@.len() as int) =~= src@);
    }
    out
}

/// Classifies a feature vector: logits, then softmax probabilities, then
/// the first class of maximal probability.  Fails exactly when the feature
/// vector's length is not the model's feature count; the logits follow the
/// scorer's fold, the probabilities are a weight vector divided by its own
/// running sum, and the selected index is the first maximum of the
/// probabilities.
pub fn predict(model: &Model, features: &Vec<u64>) -> (r: Result<Prediction, ModelError>)
    requires
        model.wf(),
    ensures
        match r {
            Ok(p) => {
                &&& features@.len() == model.d()
                &&& p.logits@.len() == model.k()
                &&& forall|i: int|
                    0 <= i < model.k() ==> p.logits@[i] == row_score(
                        (#[trigger] model.coefficients@[i])@,
                        features@,
                        model.intercept@[i],
                        model.d(),
                    )
                &&& p.probabilities@.len() == model.k()
                &&& p.probabilities@ == softmax_spec(p.logits@)
                &&& p.class_index == first_max_index(p.probabilities@, model.k())
                &&& p.label@ == model.labels@[p.class_index as int]@
            },
            Err(e) => {
                &&& e == ModelError::DimensionMismatch
                &&& features@.len() != model.d()
            },
        },
{
    let logits = match score(model, features) {
        Ok(z) => z,
        Err(e) => {
            return Err(e);
        },
    };
    let probabilities = match normalize(&logits) {
        Ok(p) => p,
        Err(e) => {
            proof {
                assert(false);
            }
            return Err(e);
        },
    };
    let class_index = argmax(&probabilities);
    let label = copy_bytes(&model.labels[class_index]);
    Ok(Prediction { label, class_index, probabilities, logits })
}

/// The first maximum is a maximum: no entry strictly exceeds it.
pub proof fn lemma_first_max_is_max(s: Seq<u64>, n: int)
    requires
        1 <= n <= s.len(),
    ensures
        0 <= first_max_index(s, n) < n,
        forall|t: int| 0 <= t < n ==> !num_gt(s[t], s[first_max_index(s, n)]),
    decreases n,
{
    if n == 1 {
    } else {
        lemma_first_max_is_max(s, n - 1);
        let m = first_max_index(s, n - 1);
        let r = first_max_index(s, n);
        if num_gt(s[n - 1], s[m]) {
            assert(r == n - 1);
            assert forall|t: int| 0 <= t < n implies !num_gt(s[t], s[r]) by {
                if t < n - 1 && num_gt(s[t], s[n - 1]) {
                    lemma_gt_trans(s[t], s[n - 1], s[m]);
                }
            }
        } else {
            assert(r == m);
        }
    }
}

/// No maximal entry stands before the first maximum.
proof fn lemma_first_max_lowest(s: Seq<u64>, n: int, i: int)
    requires
        1 <= n <= s.len(),
        0 <= i < n,
        forall|t: int| 0 <= t < n ==> !num_gt(s[t], s[i]),
        forall|t: int| 0 <= t < n ==> !nan_bits(s[t]),
    ensures
        first_max_index(s, n) <= i,
    decreases n,
{
    if n == 1 {
    } else {
        let m = first_max_index(s, n - 1);
        lemma_first_max_is_max(s, n - 1);
        if i == n - 1 {
        } else {
            lemma_first_max_lowest(s, n - 1, i);
            if num_gt(s[n - 1], s[m]) {
                lemma_gt_through_equal(s[n - 1], s[m], s[i]);
                assert(false);
            }
        }
    }
}

/// The deterministic tie-break law: scanning in label order with a strict
/// comparison, the selected class is a class of maximal probability, and
/// no class of maximal probability has a lower index — so when two or more
/// classes tie for the maximum, the lowest-indexed one is always selected.
/// NaN-free probabilities are assumed; a NaN is incomparable and breaks
/// the notion of a maximum itself.
pub proof fn lemma_deterministic_tie_break(p: Seq<u64>, i: int)
    requires
        p.len() >= 1,
        0 <= i < p.len(),
        forall|t: int| 0 <= t < p.len() ==> !num_gt(p[t], p[i]),
        forall|t: int| 0 <= t < p.len() ==> !nan_bits(p[t]),
    ensures
        first_max_index(p, p.len() as int) <= i,
        forall|t: int|
            0 <= t < p.len() ==> !num_gt(p[t], p[first_max_index(p, p.len() as int)]),
{
    lemma_first_max_is_max(p, p.len() as int);
    lemma_first_max_lowest(p, p.len() as int, i);
}

} // verus!
