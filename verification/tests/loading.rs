//! Loading, validation and serialization of models.

use playcalling::model::{Model, ModelError};
use playcalling::save::save;
use playcalling::store::load;

fn bits(x: f64) -> u64 {
    x.to_bits()
}

fn sample_text() -> Vec<u8> {
    b"run pass kick\n0 0 0\n1 0\n0 1\n-1 -1\n".to_vec()
}

#[test]
fn loads_sample_model() {
    let m = load(&sample_text()).unwrap();
    assert_eq!(m.class_count(), 3);
    assert_eq!(m.feature_count(), 2);
    assert_eq!(m.labels, vec![b"run".to_vec(), b"pass".to_vec(), b"kick".to_vec()]);
    assert_eq!(m.intercept, vec![bits(0.0), bits(0.0), bits(0.0)]);
    assert_eq!(
        m.coefficients,
        vec![
            vec![bits(1.0), bits(0.0)],
            vec![bits(0.0), bits(1.0)],
            vec![bits(-1.0), bits(-1.0)],
        ]
    );
}

#[test]
fn parses_fractional_tokens_exactly() {
    let m = load(b"a b\n0.1 -2.5e-3\n7 0.25\n1e2 3\n").unwrap();
    assert_eq!(m.intercept, vec![bits(0.1), bits(-2.5e-3)]);
    assert_eq!(m.coefficients[0], vec![bits(7.0), bits(0.25)]);
    assert_eq!(m.coefficients[1], vec![bits(1e2), bits(3.0)]);
}

#[test]
fn tolerates_blank_lines_and_extra_spaces() {
    let m = load(b"\n  run   pass \n\n0 0\n1 0\n\n0 1\n\n").unwrap();
    assert_eq!(m.class_count(), 2);
    assert_eq!(m.labels[0], b"run".to_vec());
}

#[test]
fn missing_coefficient_row_is_shape_mismatch() {
    // three declared classes but only two coefficient rows
    let r = load(b"run pass kick\n0 0 0\n1 0\n0 1\n");
    assert_eq!(r.unwrap_err(), ModelError::ShapeMismatch);
}

#[test]
fn intercept_count_disagreement_is_shape_mismatch() {
    let r = load(b"run pass\n0\n1 0\n0 1\n");
    assert_eq!(r.unwrap_err(), ModelError::ShapeMismatch);
}

#[test]
fn non_numeric_token_is_malformed() {
    let r = load(b"run pass\n0 zero\n1 0\n0 1\n");
    assert_eq!(r.unwrap_err(), ModelError::MalformedModel);
}

#[test]
fn truncated_input_is_malformed() {
    assert_eq!(load(b"run pass\n").unwrap_err(), ModelError::MalformedModel);
    assert_eq!(load(b"").unwrap_err(), ModelError::MalformedModel);
}

#[test]
fn repeated_label_is_malformed() {
    let r = load(b"run run\n0 0\n1 0\n0 1\n");
    assert_eq!(r.unwrap_err(), ModelError::MalformedModel);
}

#[test]
fn ragged_matrix_is_malformed() {
    let r = load(b"run pass\n0 0\n1 0\n0 1 2\n");
    assert_eq!(r.unwrap_err(), ModelError::MalformedModel);
}

#[test]
fn nan_parameter_is_invalid_value() {
    let r = load(b"run pass\n0 nan\n1 0\n0 1\n");
    assert_eq!(r.unwrap_err(), ModelError::InvalidValue);
}

#[test]
fn infinite_parameter_is_invalid_value() {
    let r = load(b"run pass\ninf 0\n1 0\n0 1\n");
    assert_eq!(r.unwrap_err(), ModelError::InvalidValue);
    let r = load(b"run pass\n0 0\n1e999 0\n0 1\n");
    assert_eq!(r.unwrap_err(), ModelError::InvalidValue);
}

#[test]
fn constructor_checks_parts() {
    let two_labels = || vec![b"a".to_vec(), b"b".to_vec()];
    let eye = || vec![vec![bits(1.0), bits(0.0)], vec![bits(0.0), bits(1.0)]];
    let zeros = || vec![bits(0.0), bits(0.0)];

    assert!(Model::new(two_labels(), eye(), zeros()).is_ok());
    // repeated labels
    let r = Model::new(vec![b"a".to_vec(), b"a".to_vec()], eye(), zeros());
    assert_eq!(r.unwrap_err(), ModelError::MalformedModel);
    // no labels at all
    let r = Model::new(vec![], vec![], vec![]);
    assert_eq!(r.unwrap_err(), ModelError::MalformedModel);
    // intercept length disagrees
    let r = Model::new(two_labels(), eye(), vec![bits(0.0)]);
    assert_eq!(r.unwrap_err(), ModelError::ShapeMismatch);
    // row count disagrees
    let r = Model::new(two_labels(), vec![vec![bits(1.0)]], zeros());
    assert_eq!(r.unwrap_err(), ModelError::ShapeMismatch);
    // ragged matrix
    let r = Model::new(
        two_labels(),
        vec![vec![bits(1.0), bits(0.0)], vec![bits(0.0)]],
        zeros(),
    );
    assert_eq!(r.unwrap_err(), ModelError::MalformedModel);
    // NaN entry
    let r = Model::new(
        two_labels(),
        vec![vec![f64::NAN.to_bits(), bits(0.0)], vec![bits(0.0), bits(1.0)]],
        zeros(),
    );
    assert_eq!(r.unwrap_err(), ModelError::InvalidValue);
    // infinite intercept entry
    let r = Model::new(two_labels(), eye(), vec![f64::INFINITY.to_bits(), bits(0.0)]);
    assert_eq!(r.unwrap_err(), ModelError::InvalidValue);
}

#[test]
fn save_and_reload_is_identity() {
    let m = load(&sample_text()).unwrap();
    let text = save(&m);
    let m2 = load(&text).unwrap();
    assert_eq!(m.labels, m2.labels);
    assert_eq!(m.coefficients, m2.coefficients);
    assert_eq!(m.intercept, m2.intercept);
}

#[test]
fn save_and_reload_preserves_awkward_values() {
    let m = Model::new(
        vec![b"x".to_vec(), b"y".to_vec()],
        vec![
            vec![bits(0.1), bits(-0.0)],
            vec![bits(1.0e-308), bits(123456789.123456789)],
        ],
        vec![bits(-2.5e-17), bits(f64::MAX)],
    )
    .unwrap();
    let text = save(&m);
    let m2 = load(&text).unwrap();
    assert_eq!(m.labels, m2.labels);
    assert_eq!(m.coefficients, m2.coefficients);
    assert_eq!(m.intercept, m2.intercept);
}
