//! The two pricing formulas against reference values: the concrete
//! scenario, put-call parity, monotonicity, the degenerate-volatility
//! limit and the deep out-of-the-money tails.

use bsmodel::price::{call_option_price, put_option_price};

const SCALE_F: f64 = 1e12;

fn fx_u(x: f64) -> u64 {
    (x * SCALE_F).round() as u64
}

fn fx_i(x: f64) -> i64 {
    (x * SCALE_F).round() as i64
}

fn to_f(v: i128) -> f64 {
    v as f64 / SCALE_F
}

fn call_f(s: f64, k: f64, r: f64, t: f64, sigma: f64) -> f64 {
    to_f(call_option_price(fx_u(s), fx_u(k), fx_i(r), fx_u(t), fx_u(sigma)))
}

fn put_f(s: f64, k: f64, r: f64, t: f64, sigma: f64) -> f64 {
    to_f(put_option_price(fx_u(s), fx_u(k), fx_i(r), fx_u(t), fx_u(sigma)))
}

#[test]
fn reference_scenario() {
    let call = call_f(100.0, 100.0, 0.05, 1.0, 0.2);
    let put = put_f(100.0, 100.0, 0.05, 1.0, 0.2);
    assert!((call - 10.45).abs() < 1e-2, "call price {}", call);
    assert!((put - 5.57).abs() < 1e-2, "put price {}", put);
    // full-precision Black-Scholes values of the same contract
    assert!((call - 10.450583572185565).abs() < 1e-4);
    assert!((put - 5.573526022256971).abs() < 1e-4);
}

#[test]
fn put_call_parity_grid() {
    let cases = [
        (100.0, 100.0, 0.05, 1.0, 0.2),
        (120.0, 100.0, -0.01, 2.0, 0.35),
        (80.0, 95.0, 0.03, 0.5, 0.1),
        (1.0, 1000.0, 0.05, 1.0, 0.2),
        (1000.0, 1.0, 0.05, 1.0, 0.2),
        (55.5, 60.25, 0.07, 0.75, 0.45),
    ];
    for (s, k, r, t, sigma) in cases {
        let call = call_f(s, k, r, t, sigma);
        let put = put_f(s, k, r, t, sigma);
        let forward = s - k * (-r * t).exp();
        assert!(
            (call - put - forward).abs() < 1e-6,
            "parity violated at ({}, {}, {}, {}, {}): {} vs {}",
            s,
            k,
            r,
            t,
            sigma,
            call - put,
            forward
        );
    }
}

#[test]
fn call_monotone_in_spot() {
    let mut prev = f64::MIN;
    for s in [50.0, 80.0, 100.0, 120.0, 150.0, 400.0] {
        let call = call_f(s, 100.0, 0.05, 1.0, 0.2);
        assert!(call >= prev, "call decreased at spot {}", s);
        prev = call;
    }
}

#[test]
fn call_monotone_in_volatility() {
    let mut prev = f64::MIN;
    for sigma in [0.01, 0.05, 0.1, 0.2, 0.4, 0.8, 1.6] {
        let call = call_f(100.0, 100.0, 0.05, 1.0, sigma);
        assert!(call >= prev, "call decreased at volatility {}", sigma);
        prev = call;
    }
}

#[test]
fn degenerate_volatility_trend() {
    // with sigma shrinking and s above the discounted strike, the call
    // price falls toward the discounted intrinsic value
    let intrinsic = 100.0 - 90.0 * (-0.05f64).exp();
    let mut prev_gap = f64::MAX;
    for sigma in [0.05, 0.02, 0.01] {
        let gap = (call_f(100.0, 90.0, 0.05, 1.0, sigma) - intrinsic).abs();
        assert!(gap <= prev_gap, "gap grew at volatility {}", sigma);
        prev_gap = gap;
    }
    assert!(prev_gap < 1e-6);
}

#[test]
fn deep_out_of_the_money() {
    let call = call_f(1.0, 1000.0, 0.05, 1.0, 0.2);
    assert!(call.abs() < 1e-6, "deep out-of-the-money call {}", call);
    let put = put_f(1000.0, 1.0, 0.05, 1.0, 0.2);
    assert!(put.abs() < 1e-6, "deep out-of-the-money put {}", put);
}

#[test]
fn short_expiry_small_spot() {
    // the smallest corner of the accepted domain still prices finitely
    let call = call_option_price(1, 1, 0, 1_000_000, 1_000_000);
    let put = put_option_price(1, 1, 0, 1_000_000, 1_000_000);
    assert!(to_f(call).abs() < 1e-9);
    assert!(to_f(put).abs() < 1e-9);
}
