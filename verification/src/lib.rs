//! Inference engine for a multinomial logistic regression classifier.
//!
//! The engine loads persisted model parameters (a coefficient matrix and an
//! intercept vector together with ordered class labels), validates their
//! shape and numerical sanity, computes per-class linear scores for a
//! feature vector, normalizes the scores into a probability distribution,
//! and selects the most probable class.
//!
//! Every number in the library is the bit pattern of an IEEE 754 double,
//! carried as a `u64`.  Classification on such bit patterns (sign, magnitude,
//! finiteness, ordering) is ordinary verified code; the rounding arithmetic
//! itself is delegated to `rustc_apfloat`, a deterministic software
//! implementation of IEEE 754, through a handful of trusted wrappers.

use vstd::prelude::*;

pub mod exp;
pub mod model;
pub mod num;
pub mod predict;
pub mod save;
pub mod score;
pub mod softmax;
pub mod store;
pub mod text;

verus! {

} // verus!
