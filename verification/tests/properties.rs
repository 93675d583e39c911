//! Numeric properties: distribution shape, shift invariance, the sigmoid
//! case, and the behaviour of the bit-level primitives.

use playcalling::exp::weight_of;
use playcalling::num::greater_than;
use playcalling::softmax::normalize;
use playcalling::store::load;

fn bits(x: f64) -> u64 {
    x.to_bits()
}

fn fl(b: u64) -> f64 {
    f64::from_bits(b)
}

fn probabilities(z: &[f64]) -> Vec<f64> {
    let v: Vec<u64> = z.iter().map(|x| bits(*x)).collect();
    normalize(&v).unwrap().iter().map(|b| fl(*b)).collect()
}

#[test]
fn probabilities_sum_to_one() {
    let cases: Vec<Vec<f64>> = vec![
        vec![2.0, 1.0, -3.0],
        vec![0.0],
        vec![100.0, 100.0, 100.0, 100.0],
        vec![-700.0, 700.0],
        vec![1.5, -2.25, 0.125, 3.75, -0.5],
        vec![0.3, 0.30000001],
    ];
    for z in cases {
        let p = probabilities(&z);
        let s: f64 = p.iter().sum();
        assert!((s - 1.0).abs() <= 1e-9, "sum {} for {:?}", s, z);
    }
}

#[test]
fn probabilities_lie_in_unit_interval() {
    let cases: Vec<Vec<f64>> = vec![
        vec![2.0, 1.0, -3.0],
        vec![0.0],
        vec![-1000.0, 0.0, 1000.0],
        vec![50.0, -50.0],
        vec![f64::MAX, f64::MIN_POSITIVE, -f64::MAX],
    ];
    for z in cases {
        for (k, p) in probabilities(&z).iter().enumerate() {
            assert!(0.0 <= *p && *p <= 1.0, "p[{}] = {} for {:?}", k, p, z);
        }
    }
}

#[test]
fn shift_invariance_on_exactly_representable_shifts() {
    // with integer logits and an integer shift every subtraction is exact,
    // so the two runs agree bit for bit
    let a = normalize(&vec![bits(2.0), bits(1.0), bits(-3.0)]).unwrap();
    let b = normalize(&vec![bits(7.0), bits(6.0), bits(2.0)]).unwrap();
    assert_eq!(a, b);
    let a = normalize(&vec![bits(0.5), bits(-1.25)]).unwrap();
    let b = normalize(&vec![bits(64.5), bits(62.75)]).unwrap();
    assert_eq!(a, b);
}

#[test]
fn shift_invariance_within_tolerance() {
    let z = [0.3, -1.7, 2.9];
    let c = 0.1234567;
    let p = probabilities(&z);
    let shifted: Vec<f64> = z.iter().map(|x| x + c).collect();
    let q = probabilities(&shifted);
    for k in 0..z.len() {
        assert!((p[k] - q[k]).abs() <= 1e-9, "class {}: {} vs {}", k, p[k], q[k]);
    }
}

#[test]
fn binary_case_equals_sigmoid() {
    for z in [-20.0, -5.0, -1.5, -0.25, 0.0, 0.7, 1.5, 4.0, 20.0] {
        let p = probabilities(&[z, 0.0]);
        let sigmoid = 1.0 / (1.0 + (-z).exp());
        assert!(
            (p[0] - sigmoid).abs() <= 1e-5,
            "z = {}: p0 = {} sigmoid = {}",
            z,
            p[0],
            sigmoid
        );
        assert!((p[0] + p[1] - 1.0).abs() <= 1e-9);
    }
}

#[test]
fn weight_function_tracks_the_exponential() {
    let mut x = -30.0;
    while x < 5.0 {
        let w = fl(weight_of(bits(x)));
        let e = x.exp();
        assert!(
            (w - e).abs() <= 1e-6 * e,
            "x = {}: weight {} exp {}",
            x,
            w,
            e
        );
        x += 0.137;
    }
}

#[test]
fn weight_function_edge_cases() {
    assert!(fl(weight_of(f64::NAN.to_bits())).is_nan());
    assert_eq!(fl(weight_of(f64::NEG_INFINITY.to_bits())), 0.0);
    assert_eq!(fl(weight_of(f64::INFINITY.to_bits())), f64::INFINITY);
    assert_eq!(fl(weight_of(bits(-800.0))), 0.0);
    assert_eq!(fl(weight_of(bits(800.0))), f64::INFINITY);
    let one = fl(weight_of(bits(0.0)));
    assert!((one - 1.0).abs() <= 1e-9);
}

#[test]
fn comparator_agrees_with_ieee_ordering() {
    let values = [
        0.0,
        -0.0,
        1.5,
        -2.5,
        f64::MIN_POSITIVE,
        -f64::MIN_POSITIVE,
        f64::MAX,
        -f64::MAX,
        f64::INFINITY,
        f64::NEG_INFINITY,
        f64::NAN,
        1e-310,
        -1e-310,
    ];
    for a in values {
        for b in values {
            assert_eq!(
                greater_than(a.to_bits(), b.to_bits()),
                a > b,
                "comparing {} and {}",
                a,
                b
            );
        }
    }
}

#[test]
fn loader_and_scorer_agree_with_native_parsing() {
    // the loaded coefficient bits must be exactly the correctly rounded
    // doubles of the decimal tokens
    let m = load(b"a\n0.1\n0.30000000000000004 2.2250738585072014e-308\n").unwrap();
    assert_eq!(m.intercept[0], bits(0.1));
    assert_eq!(m.coefficients[0][0], bits(0.30000000000000004));
    assert_eq!(m.coefficients[0][1], bits(2.2250738585072014e-308));
}
