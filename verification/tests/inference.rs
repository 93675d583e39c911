//! Scoring, normalization and prediction.

use playcalling::model::ModelError;
use playcalling::predict::predict;
use playcalling::score::score;
use playcalling::softmax::{argmax, normalize};
use playcalling::store::load;

fn bits(x: f64) -> u64 {
    x.to_bits()
}

fn fl(b: u64) -> f64 {
    f64::from_bits(b)
}

fn sample_model() -> playcalling::model::Model {
    load(b"run pass kick\n0 0 0\n1 0\n0 1\n-1 -1\n").unwrap()
}

fn softmax_reference(z: &[f64]) -> Vec<f64> {
    let m = z.iter().cloned().fold(f64::NEG_INFINITY, f64::max);
    let w: Vec<f64> = z.iter().map(|x| (x - m).exp()).collect();
    let s: f64 = w.iter().sum();
    w.iter().map(|x| x / s).collect()
}

#[test]
fn scores_sample_features_exactly() {
    let m = sample_model();
    let z = score(&m, &vec![bits(2.0), bits(1.0)]).unwrap();
    assert_eq!(z, vec![bits(2.0), bits(1.0), bits(-3.0)]);
}

#[test]
fn score_follows_left_to_right_accumulation() {
    let m = load(b"a\n0.25\n0.5 3\n").unwrap();
    let z = score(&m, &vec![bits(0.5), bits(2.0)]).unwrap();
    // 0.25 + 0.5*0.5 + 3*2, every step exact in IEEE arithmetic
    assert_eq!(z, vec![bits(6.5)]);
}

#[test]
fn predicts_sample_scenario() {
    let m = sample_model();
    let p = predict(&m, &vec![bits(2.0), bits(1.0)]).unwrap();
    assert_eq!(p.label, b"run".to_vec());
    assert_eq!(p.class_index, 0);
    assert_eq!(p.logits, vec![bits(2.0), bits(1.0), bits(-3.0)]);
    let expected = softmax_reference(&[2.0, 1.0, -3.0]);
    for k in 0..3 {
        let got = fl(p.probabilities[k]);
        assert!(
            (got - expected[k]).abs() <= 1e-6 * expected[k].abs() + 1e-9,
            "class {}: got {} want {}",
            k,
            got,
            expected[k]
        );
    }
}

#[test]
fn rejects_short_feature_vector() {
    let m = sample_model();
    assert_eq!(predict(&m, &vec![bits(2.0)]).unwrap_err(), ModelError::DimensionMismatch);
    assert_eq!(score(&m, &vec![bits(2.0)]).unwrap_err(), ModelError::DimensionMismatch);
}

#[test]
fn rejects_long_feature_vector() {
    let m = sample_model();
    let x = vec![bits(2.0), bits(1.0), bits(0.0)];
    assert_eq!(predict(&m, &x).unwrap_err(), ModelError::DimensionMismatch);
    assert_eq!(score(&m, &x).unwrap_err(), ModelError::DimensionMismatch);
}

#[test]
fn rejects_empty_logit_vector() {
    assert_eq!(normalize(&vec![]).unwrap_err(), ModelError::DegenerateInput);
}

#[test]
fn ties_select_the_lowest_index() {
    // all three logits exactly equal: the first class wins
    let m = load(b"run pass kick\n1 1 1\n0 0\n0 0\n0 0\n").unwrap();
    let p = predict(&m, &vec![bits(3.5), bits(-1.25)]).unwrap();
    assert_eq!(p.label, b"run".to_vec());
    assert_eq!(p.class_index, 0);
    // a two-way tie between the later classes
    let m = load(b"run pass kick\n0 2 2\n0 0\n0 0\n0 0\n").unwrap();
    let p = predict(&m, &vec![bits(1.0), bits(1.0)]).unwrap();
    assert_eq!(p.label, b"pass".to_vec());
    assert_eq!(p.class_index, 1);
}

#[test]
fn tie_break_is_reproducible() {
    let m = load(b"run pass kick\n1 1 1\n0 0\n0 0\n0 0\n").unwrap();
    for _ in 0..50 {
        let p = predict(&m, &vec![bits(0.0), bits(0.0)]).unwrap();
        assert_eq!(p.class_index, 0);
    }
}

#[test]
fn argmax_picks_first_strict_maximum() {
    assert_eq!(argmax(&vec![bits(1.0), bits(3.0), bits(2.0)]), 1);
    assert_eq!(argmax(&vec![bits(-1.0), bits(-0.5)]), 1);
    assert_eq!(argmax(&vec![bits(2.0), bits(2.0)]), 0);
    assert_eq!(argmax(&vec![bits(5.0), bits(7.0), bits(7.0)]), 1);
    assert_eq!(argmax(&vec![bits(0.0), bits(-0.0)]), 0);
}

#[test]
fn reloaded_model_predicts_identically() {
    let m = sample_model();
    let text = playcalling::save::save(&m);
    let m2 = load(&text).unwrap();
    let x = vec![bits(2.0), bits(1.0)];
    let p1 = predict(&m, &x).unwrap();
    let p2 = predict(&m2, &x).unwrap();
    assert_eq!(p1.label, p2.label);
    assert_eq!(p1.logits, p2.logits);
    assert_eq!(p1.probabilities, p2.probabilities);
}
