//! The error function and the standard-normal CDF against reference
//! values: accuracy at a grid of points, exact symmetry, and the CDF
//! boundary values.

use bsmodel::erf::{erf, norm_cdf, norm_cdf2};

const SCALE_F: f64 = 1e12;

fn fx(x: f64) -> i128 {
    (x * SCALE_F).round() as i128
}

fn to_f(v: i128) -> f64 {
    v as f64 / SCALE_F
}

/// True values of erf at the grid points, to full double precision.
const ERF_REFERENCE: [(f64, f64); 5] = [
    (0.0, 0.0),
    (0.5, 0.5204998778130465),
    (1.0, 0.8427007929497149),
    (3.0, 0.9999779095030014),
    (5.0, 0.9999999999984626),
];

#[test]
fn erf_accuracy_grid() {
    for (x, reference) in ERF_REFERENCE {
        let approx = to_f(erf(fx(x)));
        assert!(
            (approx - reference).abs() < 1.5e-7,
            "erf({}) = {} is off the reference {}",
            x,
            approx,
            reference
        );
        let approx_neg = to_f(erf(fx(-x)));
        assert!((approx_neg + reference).abs() < 1.5e-7);
    }
}

#[test]
fn erf_symmetry_exact() {
    for x in [1, 7, 500, 1_000_000, 500_000_000_000i128, 1_000_000_000_000, 3_000_000_000_000] {
        assert_eq!(erf(-x), -erf(x));
    }
}

#[test]
fn erf_zero_residue() {
    // at zero the polynomial leaves the small positive residue
    // 1 - (a1 + a2 + a3 + a4 + a5) = 1e-9, so zero is the one point
    // where the sign-flip symmetry does not hold
    assert_eq!(erf(0), 1_000);
    assert_ne!(erf(-0), -erf(0));
}

#[test]
fn norm_cdf_at_zero() {
    let half = norm_cdf(0);
    assert!((to_f(half) - 0.5).abs() < 1e-9);
    assert_eq!(half, 500_000_000_500);
}

#[test]
fn norm_cdf_tails() {
    let high = norm_cdf(fx(10.0));
    assert!(to_f(high) > 0.999999);
    let low = norm_cdf(fx(-10.0));
    assert!(to_f(low) < 0.000001);
    assert!(low >= 0);
}

#[test]
fn norm_cdf_complement_concrete() {
    // the two tails are exact complements at twice the scale
    for x in [fx(0.5), fx(1.0), fx(-2.25), fx(7.0), fx(25.0)] {
        assert_eq!(norm_cdf2(x) + norm_cdf2(-x), 2_000_000_000_000);
    }
}

#[test]
fn norm_cdf_monotone_grid() {
    let mut prev = i128::MIN;
    for x in [-6.0, -3.0, -1.0, -0.25, 0.0, 0.25, 1.0, 3.0, 6.0] {
        let c = norm_cdf(fx(x));
        assert!(c >= prev, "norm_cdf not monotone at {}", x);
        prev = c;
    }
}
