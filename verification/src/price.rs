//! The Black-Scholes closed-form prices of European call and put options.
//!
//! All quantities are fixed-point numbers at `SCALE` (twelve decimal
//! places): `s` and `k` are the spot and strike prices, `r` the
//! continuously-compounded risk-free rate, `t` the time to expiry in
//! years, and `sigma` the annualized volatility.

use vstd::prelude::*;
use crate::erf::{norm_cdf2, spec_cdf2, spec_erf_arg};
use crate::expo::{exp_s, spec_exp_s, EXP_POS_MAX};
use crate::fixed::{
    abs_i, div_floor2, div_trunc, isqrt, lemma_div_trunc_mag, lemma_mul_abs, mul_s_i,
    spec_isqrt, spec_mul_s, tdiv_div, SCALE, SCALE_I, TWO_SCALE,
};
use crate::logn::{ln_s, spec_ln};
use vstd::arithmetic::div_mod::{lemma_div_pos_is_pos, lemma_hoist_over_denominator};
use vstd::arithmetic::mul::{lemma_mul_nonnegative, lemma_mul_upper_bound};

verus! {

/// Largest spot or strike price accepted: one million, at scale.
pub const PRICE_MAX: u64 = 1_000_000_000_000_000_000;

/// Shortest time to expiry accepted: a microyear.
pub const T_MIN: u64 = 1_000_000;

/// Longest time to expiry accepted: ten years.
pub const T_MAX: u64 = 10_000_000_000_000;

/// Smallest volatility accepted: one millionth.
pub const SIGMA_MIN: u64 = 1_000_000;

/// Largest volatility accepted: five, at scale.
pub const SIGMA_MAX: u64 = 5_000_000_000_000;

/// Largest rate magnitude accepted: one, at scale.
pub const RATE_MAX: i64 = 1_000_000_000_000;

/// The domain on which the formulas are evaluated: positive prices,
/// expiry and volatility, and magnitudes small enough for the
/// fixed-point representation.
pub open spec fn spec_valid_inputs(s: int, k: int, r: int, t: int, sigma: int) -> bool {
    &&& 1 <= s <= PRICE_MAX
    &&& 1 <= k <= PRICE_MAX
    &&& T_MIN <= t <= T_MAX
    &&& SIGMA_MIN <= sigma <= SIGMA_MAX
    &&& -(RATE_MAX as int) <= r <= RATE_MAX as int
}

/// `sqrt(t)` at scale: the integer square root of `t * SCALE`.
pub open spec fn spec_sqrt_s(t: int) -> int {
    spec_isqrt((t * SCALE) as nat) as int
}

/// `sigma * sqrt(t)` at scale: the denominator of `d1` and the step from
/// `d1` down to `d2`.
pub open spec fn spec_vol_term(sigma: int, t: int) -> int {
    (sigma * spec_sqrt_s(t)) / (SCALE as int)
}

/// The standardized distance
/// `d1 = (ln(s / k) + (r + sigma^2 / 2) * t) / (sigma * sqrt(t))`,
/// with the log-moneyness computed as `ln(s) - ln(k)`.
pub open spec fn spec_d1(s: int, k: int, r: int, t: int, sigma: int) -> int {
    let num = spec_ln(s) - spec_ln(k) + spec_mul_s(r + spec_mul_s(sigma, sigma) / 2, t);
    div_trunc(num * SCALE, spec_vol_term(sigma, t))
}

/// `d2 = d1 - sigma * sqrt(t)`.
pub open spec fn spec_d2(s: int, k: int, r: int, t: int, sigma: int) -> int {
    spec_d1(s, k, r, t, sigma) - spec_vol_term(sigma, t)
}

/// The discounted strike `k * exp(-r * t)`, at scale.
pub open spec fn spec_kdf(k: int, r: int, t: int) -> int {
    (k * spec_exp_s(-spec_mul_s(r, t))) / (SCALE as int)
}

/// The Black-Scholes call price
/// `s * Phi(d1) - k * exp(-r * t) * Phi(d2)`, at scale, rounded down
/// once at the end.
pub open spec fn spec_call_price(s: int, k: int, r: int, t: int, sigma: int) -> int {
    let d1 = spec_d1(s, k, r, t, sigma);
    let d2 = spec_d2(s, k, r, t, sigma);
    let kdf = spec_kdf(k, r, t);
    (s * spec_cdf2(d1) - kdf * spec_cdf2(d2)) / (TWO_SCALE as int)
}

/// The Black-Scholes put price
/// `k * exp(-r * t) * Phi(-d2) - s * Phi(-d1)`, at scale, rounded down
/// once at the end.
pub open spec fn spec_put_price(s: int, k: int, r: int, t: int, sigma: int) -> int {
    let d1 = spec_d1(s, k, r, t, sigma);
    let d2 = spec_d2(s, k, r, t, sigma);
    let kdf = spec_kdf(k, r, t);
    (kdf * spec_cdf2(-d2) - s * spec_cdf2(-d1)) / (TWO_SCALE as int)
}

/// The shared prelude of both pricing formulas: `d1`, `d2` and the
/// discounted strike, each proved equal to its specification.
fn price_terms(s: u64, k: u64, r: i64, t: u64, sigma: u64) -> (res: (i128, i128, u128))
    requires
        spec_valid_inputs(s as int, k as int, r as int, t as int, sigma as int),
    ensures
        res.0 == spec_d1(s as int, k as int, r as int, t as int, sigma as int),
        res.1 == spec_d2(s as int, k as int, r as int, t as int, sigma as int),
        res.2 == spec_kdf(k as int, r as int, t as int),
        abs_i(res.0 as int) <= 0x1_0000_0000_0000_0000_0000_0000_0000,
        abs_i(res.1 as int) <= 0x2_0000_0000_0000_0000_0000_0000_0000,
        res.2 <= 200_000_000_000_000_000_000_000,
{
    let sq: u128 = isqrt((t as u128) * SCALE);
    proof {
        assert(sq <= 3_200_000_000_000) by (nonlinear_arith)
            requires
                (sq as int) * (sq as int) <= (t as int) * (SCALE as int),
                t <= T_MAX,
                T_MAX == 10_000_000_000_000,
                SCALE == 1_000_000_000_000,
        ;
        assert(sq >= 1_000_000_000) by (nonlinear_arith)
            requires
                (t as int) * (SCALE as int) < (sq + 1) * (sq + 1),
                t >= T_MIN,
                T_MIN == 1_000_000,
                SCALE == 1_000_000_000_000,
                sq >= 0,
        ;
        lemma_mul_upper_bound(sigma as int, SIGMA_MAX as int, sq as int, 3_200_000_000_000int);
        assert((sigma as int) * (sq as int) >= 1_000_000_000_000_000) by (nonlinear_arith)
            requires
                sigma >= 1_000_000,
                sq >= 1_000_000_000,
        ;
        lemma_mul_nonnegative(sigma as int, sq as int);
    }
    let vol: u128 = (sigma as u128) * sq / SCALE;
    let lns: i128 = ln_s(s as u128);
    let lnk: i128 = ln_s(k as u128);
    proof {
        lemma_mul_upper_bound(sigma as int, SIGMA_MAX as int, sigma as int, SIGMA_MAX as int);
        lemma_mul_nonnegative(sigma as int, sigma as int);
        lemma_div_pos_is_pos((sigma as int) * (sigma as int), SCALE as int);
    }
    let s2h: u128 = (sigma as u128) * (sigma as u128) / SCALE / 2;
    proof {
        lemma_mul_abs((r as int) + (s2h as int), t as int);
        lemma_mul_upper_bound(
            abs_i((r as int) + (s2h as int)),
            14_000_000_000_000int,
            abs_i(t as int),
            T_MAX as int,
        );
        lemma_div_trunc_mag(((r as int) + (s2h as int)) * (t as int), SCALE as int);
    }
    let drift: i128 = mul_s_i((r as i128) + (s2h as i128), t as i128);
    let num: i128 = lns - lnk + drift;
    proof {
        lemma_div_trunc_mag((num as int) * (SCALE as int), vol as int);
        lemma_mul_abs(num as int, SCALE as int);
    }
    let d1: i128 = tdiv_div(num * SCALE_I, vol);
    let d2: i128 = d1 - (vol as i128);
    proof {
        lemma_mul_abs(r as int, t as int);
        lemma_mul_upper_bound(abs_i(r as int), RATE_MAX as int, abs_i(t as int), T_MAX as int);
        lemma_div_trunc_mag((r as int) * (t as int), SCALE as int);
    }
    let rt: i128 = mul_s_i(r as i128, t as i128);
    let df: u128 = exp_s(-rt);
    proof {
        lemma_mul_upper_bound(k as int, PRICE_MAX as int, df as int, EXP_POS_MAX as int);
        lemma_mul_nonnegative(k as int, df as int);
        lemma_div_pos_is_pos((k as int) * (df as int), SCALE as int);
    }
    let kdf: u128 = (k as u128) * df / SCALE;
    (d1, d2, kdf)
}

/// The price of a European call option under the Black-Scholes model.
///
/// The result equals `spec_call_price`, the closed-form formula
/// `s * Phi(d1) - k * exp(-r * t) * Phi(d2)` evaluated in fixed point.
pub fn call_option_price(s: u64, k: u64, r: i64, t: u64, sigma: u64) -> (price: i128)
    requires
        spec_valid_inputs(s as int, k as int, r as int, t as int, sigma as int),
    ensures
        price == spec_call_price(s as int, k as int, r as int, t as int, sigma as int),
{
    let (d1, d2, kdf) = price_terms(s, k, r, t, sigma);
    let n1: i128 = norm_cdf2(d1);
    let n2: i128 = norm_cdf2(d2);
    proof {
        lemma_mul_abs(s as int, n1 as int);
        lemma_mul_upper_bound(abs_i(s as int), PRICE_MAX as int, abs_i(n1 as int), 7 * SCALE_I as int);
        lemma_mul_abs(kdf as int, n2 as int);
        lemma_mul_upper_bound(
            abs_i(kdf as int),
            200_000_000_000_000_000_000_000int,
            abs_i(n2 as int),
            7 * SCALE_I as int,
        );
    }
    let gross: i128 = (s as i128) * n1 - (kdf as i128) * n2;
    div_floor2(gross)
}

/// The price of a European put option under the Black-Scholes model.
///
/// The result equals `spec_put_price`, the closed-form formula
/// `k * exp(-r * t) * Phi(-d2) - s * Phi(-d1)` evaluated in fixed point.
pub fn put_option_price(s: u64, k: u64, r: i64, t: u64, sigma: u64) -> (price: i128)
    requires
        spec_valid_inputs(s as int, k as int, r as int, t as int, sigma as int),
    ensures
        price == spec_put_price(s as int, k as int, r as int, t as int, sigma as int),
{
    let (d1, d2, kdf) = price_terms(s, k, r, t, sigma);
    let n1m: i128 = norm_cdf2(-d1);
    let n2m: i128 = norm_cdf2(-d2);
    proof {
        lemma_mul_abs(s as int, n1m as int);
        lemma_mul_upper_bound(
            abs_i(s as int),
            PRICE_MAX as int,
            abs_i(n1m as int),
            7 * SCALE_I as int,
        );
        lemma_mul_abs(kdf as int, n2m as int);
        lemma_mul_upper_bound(
            abs_i(kdf as int),
            200_000_000_000_000_000_000_000int,
            abs_i(n2m as int),
            7 * SCALE_I as int,
        );
    }
    let gross: i128 = (kdf as i128) * n2m - (s as i128) * n1m;
    div_floor2(gross)
}

/// Deep in or out of the money the prices are exact. Once both
/// standardized distances saturate high -- as they do when the
/// volatility shrinks toward zero with the spot above the discounted
/// strike, or when the spot dwarfs the strike -- the call price is
/// exactly the discounted intrinsic value `s - k * exp(-r * t)` and the
/// put price is exactly zero; saturated low -- the spot far below the
/// strike -- the call price is exactly zero.
pub proof fn lemma_saturated_prices(s: int, k: int, r: int, t: int, sigma: int)
    requires
        spec_valid_inputs(s, k, r, t, sigma),
    ensures
        spec_d1(s, k, r, t, sigma) >= crate::erf::CDF_CLAMP_I && spec_d2(s, k, r, t, sigma)
            >= crate::erf::CDF_CLAMP_I ==> spec_call_price(s, k, r, t, sigma) == s - spec_kdf(
            k,
            r,
            t,
        ) && spec_put_price(s, k, r, t, sigma) == 0,
        spec_d1(s, k, r, t, sigma) <= -crate::erf::CDF_CLAMP_I && spec_d2(s, k, r, t, sigma)
            <= -crate::erf::CDF_CLAMP_I ==> spec_call_price(s, k, r, t, sigma) == 0
            && spec_put_price(s, k, r, t, sigma) == spec_kdf(k, r, t) - s,
{
    let d1 = spec_d1(s, k, r, t, sigma);
    let d2 = spec_d2(s, k, r, t, sigma);
    let kdf = spec_kdf(k, r, t);
    let cl = crate::erf::CDF_CLAMP_I as int;
    crate::erf::lemma_cdf_saturates(d1);
    crate::erf::lemma_cdf_saturates(d2);
    crate::erf::lemma_cdf_saturates(-d1);
    crate::erf::lemma_cdf_saturates(-d2);
    vstd::arithmetic::mul::lemma_mul_basics(s);
    vstd::arithmetic::mul::lemma_mul_basics(kdf);
    vstd::arithmetic::div_mod::lemma_div_basics(TWO_SCALE as int);
    if d1 >= cl && d2 >= cl {
        assert(s * spec_cdf2(d1) - kdf * spec_cdf2(d2) == (TWO_SCALE as int) * (s - kdf))
            by (nonlinear_arith)
            requires
                spec_cdf2(d1) == 2 * SCALE,
                spec_cdf2(d2) == 2 * SCALE,
                TWO_SCALE == 2 * SCALE,
        ;
        vstd::arithmetic::div_mod::lemma_div_multiples_vanish(s - kdf, TWO_SCALE as int);
    }
    if d1 <= -cl && d2 <= -cl {
        assert(kdf * spec_cdf2(-d2) - s * spec_cdf2(-d1) == (TWO_SCALE as int) * (kdf - s))
            by (nonlinear_arith)
            requires
                spec_cdf2(-d1) == 2 * SCALE,
                spec_cdf2(-d2) == 2 * SCALE,
                TWO_SCALE == 2 * SCALE,
        ;
        vstd::arithmetic::div_mod::lemma_div_multiples_vanish(kdf - s, TWO_SCALE as int);
    }
}

/// Put-call parity: on the whole accepted domain, the difference between
/// the call and the put price equals `s - k * exp(-r * t)` exactly, with
/// the same discounted strike the two prices themselves use. The only
/// arguments left out are those whose `d1` or `d2` lands so close to zero
/// that the scaled erf argument vanishes; there the polynomial's residue
/// at zero enters both prices with the same sign and the identity is off
/// by that residue.
pub proof fn lemma_put_call_parity(s: int, k: int, r: int, t: int, sigma: int)
    requires
        spec_valid_inputs(s, k, r, t, sigma),
        spec_erf_arg(spec_d1(s, k, r, t, sigma)) != 0,
        spec_erf_arg(spec_d2(s, k, r, t, sigma)) != 0,
    ensures
        spec_call_price(s, k, r, t, sigma) - spec_put_price(s, k, r, t, sigma) == s - spec_kdf(
            k,
            r,
            t,
        ),
{
    let d1 = spec_d1(s, k, r, t, sigma);
    let d2 = spec_d2(s, k, r, t, sigma);
    let kdf = spec_kdf(k, r, t);
    crate::erf::lemma_cdf2_complement(d1);
    crate::erf::lemma_cdf2_complement(d2);
    let n1 = spec_cdf2(d1);
    let n2 = spec_cdf2(d2);
    let a = s * n1 - kdf * n2;
    let b = kdf * spec_cdf2(-d2) - s * spec_cdf2(-d1);
    let c = s - kdf;
    assert(b == a + (-c) * (TWO_SCALE as int)) by (nonlinear_arith)
        requires
            spec_cdf2(-d1) == 2 * (SCALE as int) - n1,
            spec_cdf2(-d2) == 2 * (SCALE as int) - n2,
            a == s * n1 - kdf * n2,
            b == kdf * spec_cdf2(-d2) - s * spec_cdf2(-d1),
            c == s - kdf,
            TWO_SCALE == 2 * SCALE,
    ;
    lemma_hoist_over_denominator(a, -c, TWO_SCALE as nat);
}

} // verus!
