//! The linear scorer: per-class logits `z[k] = intercept[k] + W[k] · x`.
//!
//! The accumulation order is part of the contract: each row is folded left
//! to right, starting from the intercept, so identical inputs give
//! bitwise-identical logits on every platform.

use vstd::prelude::*;
use crate::model::{Model, ModelError};
use crate::num::{add_bits, mul_bits, num_add, num_mul};

verus! {

/// The logit of one class: the intercept plus the first `n` products
/// `row[i] * x[i]`, accumulated left to right in IEEE arithmetic.
pub open spec fn row_score(row: Seq<u64>, x: Seq<u64>, b: u64, n: int) -> u64
    decreases n,
{
    if n <= 0 {
        b
    } else {
        add_bits(row_score(row, x, b, n - 1), mul_bits(row[n - 1], x[n - 1]))
    }
}

/// Computes the logit vector for a feature vector, or rejects it when its
/// length is not the model's feature count.  Succeeds exactly on vectors of
/// the right length; each logit is the left-to-right fold of its row.
pub fn score(model: &Model, features: &Vec<u64>) -> (r: Result<Vec<u64>, ModelError>)
    requires
        model.wf(),
    ensures
        match r {
            Ok(z) => {
                &&& features@.len() == model.d()
                &&& z@.len() == model.k()
                &&& forall|i: int|
                    0 <= i < model.k() ==> z@[i] == row_score(
                        (#[trigger] model.coefficients@[i])@,
                        features@,
                        model.intercept@[i],
                        model.d(),
                    )
            },
            Err(e) => {
                &&& e == ModelError::DimensionMismatch
                &&& features@.len() != model.d()
            },
        },
{
    if features.len() != model.feature_count() {
        return Err(ModelError::DimensionMismatch);
    }
    let k = model.class_count();
    let d = features.len();
    let mut z: Vec<u64> = Vec::new();
    let mut i: usize = 0;
    while i < k
        invariant
            model.wf(),
            i <= k == model.k(),
            d == features@.len() == model.d(),
            z@.len() == i,
            forall|j: int|
                0 <= j < i ==> z@[j] == row_score(
                    (#[trigger] model.coefficients@[j])@,
                    features@,
                    model.intercept@[j],
                    model.d(),
                ),
        decreases k - i,
    {
        let row = &model.coefficients[i];
        let mut acc: u64 = model.intercept[i];
        let mut j: usize = 0;
        while j < d
            invariant
                model.wf(),
                i < model.k(),
                d == features@.len() == model.d(),
                row@ == model.coefficients@[i as int]@,
                j <= d,
                acc == row_score(row@, features@, model.intercept@[i as int], j as int),
            decreases d - j,
        {
            acc = num_add(acc, num_mul(row[j], features[j]));
            j = j + 1;
        }
        z.push(acc);
        i = i + 1;
    }
    Ok(z)
}

} // verus!
