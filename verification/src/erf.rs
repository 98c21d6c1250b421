//! The Gauss error function, approximated by the Abramowitz and Stegun
//! rational polynomial (formula 7.1.26), and the standard-normal
//! cumulative distribution function built on it.
//!
//! The sign of the argument is captured first and the polynomial is
//! evaluated on the absolute value, in Horner form:
//! `erf(x) = sign(x) * (1 - poly(t) * exp(-x * x))` with
//! `t = 1 / (1 + p * |x|)`.

use vstd::prelude::*;
use crate::expo::{exp_s, spec_exp_s};
use crate::fixed::{
    abs_i, div_floor_half, div_trunc_s, lemma_mul_s_bound, mul_s_i, spec_mul_s, SCALE, SCALE_I,
};
use vstd::arithmetic::div_mod::{
    lemma_div_is_ordered_by_denominator, lemma_div_multiples_vanish, lemma_div_pos_is_pos,
};
use vstd::arithmetic::mul::{lemma_mul_nonnegative, lemma_mul_upper_bound};

verus! {

/// Coefficients of the Abramowitz and Stegun approximation, at scale.
pub const ERF_A1_I: i128 = 254_829_592_000;

pub const ERF_A2_I: i128 = -284_496_736_000;

pub const ERF_A3_I: i128 = 1_421_413_741_000;

pub const ERF_A4_I: i128 = -1_453_152_027_000;

pub const ERF_A5_I: i128 = 1_061_405_429_000;

/// The constant `p` of the approximation, at scale.
pub const ERF_P: u128 = 327_591_100_000;

/// `1 / sqrt(2)` at twelve decimal places.
pub const INV_SQRT2_I: i128 = 707_106_781_187;

/// Largest magnitude `erf` accepts: `16`, at scale.
pub const ERF_X_MAX_I: i128 = 16_000_000_000_000;

pub const ERF_X_MAX: u128 = 16_000_000_000_000;

/// The CDF clamps its argument here; beyond `12` standard deviations the
/// approximation is saturated anyway.
pub const CDF_CLAMP_I: i128 = 12_000_000_000_000;

/// The degree-five polynomial of the approximation, evaluated in Horner
/// form with a truncating fixed-point multiplication at each step.
pub open spec fn spec_horner(t: int) -> int {
    let b4 = spec_mul_s(ERF_A5_I as int, t) + ERF_A4_I;
    let b3 = spec_mul_s(b4, t) + ERF_A3_I;
    let b2 = spec_mul_s(b3, t) + ERF_A2_I;
    let b1 = spec_mul_s(b2, t) + ERF_A1_I;
    spec_mul_s(b1, t)
}

/// The approximation on a nonnegative argument `m`:
/// `1 - poly(1 / (1 + p * m)) * exp(-m * m)`, at scale.
pub open spec fn spec_erf_mag(m: int) -> int {
    let pm = ((ERF_P as int) * m) / (SCALE as int);
    let t = ((SCALE as int) * (SCALE as int)) / ((SCALE as int) + pm);
    let ex = spec_exp_s(-((m * m) / (SCALE as int)));
    (SCALE as int) - spec_mul_s(spec_horner(t), ex)
}

/// The error function: the sign is split off, the magnitude goes through
/// the polynomial approximation.
pub open spec fn spec_erf(x: int) -> int {
    if x < 0 {
        -spec_erf_mag(-x)
    } else {
        spec_erf_mag(x)
    }
}

fn erf_mag(m: u128) -> (r: i128)
    requires
        m <= ERF_X_MAX,
    ensures
        r == spec_erf_mag(m as int),
        -5 * SCALE_I <= r <= 6 * SCALE_I,
{
    proof {
        lemma_mul_upper_bound(ERF_P as int, ERF_P as int, m as int, ERF_X_MAX as int);
        lemma_mul_nonnegative(ERF_P as int, m as int);
        lemma_div_pos_is_pos((ERF_P as int) * (m as int), SCALE as int);
    }
    let pm: u128 = ERF_P * m / SCALE;
    proof {
        lemma_div_is_ordered_by_denominator(
            (SCALE as int) * (SCALE as int),
            SCALE as int,
            (SCALE as int) + pm,
        );
        lemma_div_multiples_vanish(SCALE as int, SCALE as int);
        lemma_div_pos_is_pos((SCALE as int) * (SCALE as int), (SCALE as int) + pm);
    }
    let t: u128 = SCALE * SCALE / (SCALE + pm);
    let ti: i128 = t as i128;
    proof {
        lemma_mul_s_bound(ERF_A5_I as int, t as int);
        lemma_mul_upper_bound(abs_i(ERF_A5_I as int), 2 * SCALE_I as int, abs_i(ti as int), SCALE as int);
    }
    let b4: i128 = mul_s_i(ERF_A5_I, ti) + ERF_A4_I;
    proof {
        lemma_mul_s_bound(b4 as int, t as int);
        lemma_mul_upper_bound(abs_i(b4 as int), 3 * SCALE_I as int, abs_i(ti as int), SCALE as int);
    }
    let b3: i128 = mul_s_i(b4, ti) + ERF_A3_I;
    proof {
        lemma_mul_s_bound(b3 as int, t as int);
        lemma_mul_upper_bound(abs_i(b3 as int), 5 * SCALE_I as int, abs_i(ti as int), SCALE as int);
    }
    let b2: i128 = mul_s_i(b3, ti) + ERF_A2_I;
    proof {
        lemma_mul_s_bound(b2 as int, t as int);
        lemma_mul_upper_bound(abs_i(b2 as int), 6 * SCALE_I as int, abs_i(ti as int), SCALE as int);
    }
    let b1: i128 = mul_s_i(b2, ti) + ERF_A1_I;
    proof {
        lemma_mul_s_bound(b1 as int, t as int);
        lemma_mul_upper_bound(abs_i(b1 as int), 7 * SCALE_I as int, abs_i(ti as int), SCALE as int);
    }
    let poly: i128 = mul_s_i(b1, ti);
    proof {
        lemma_mul_upper_bound(m as int, ERF_X_MAX as int, m as int, ERF_X_MAX as int);
        lemma_mul_nonnegative(m as int, m as int);
        lemma_div_pos_is_pos((m as int) * (m as int), SCALE as int);
    }
    let mm: u128 = m * m / SCALE;
    let ex: u128 = exp_s(-(mm as i128));
    proof {
        lemma_mul_s_bound(poly as int, ex as int);
    }
    proof {
        lemma_mul_upper_bound(abs_i(poly as int), 7 * SCALE_I as int, abs_i(ex as int), SCALE as int);
    }
    let shrink: i128 = mul_s_i(poly, ex as i128);
    SCALE_I - shrink
}

/// The error function at scale: `erf(x)` approximates
/// `erf(x / SCALE) * SCALE`.
pub fn erf(x: i128) -> (r: i128)
    requires
        -ERF_X_MAX_I <= x <= ERF_X_MAX_I,
    ensures
        r == spec_erf(x as int),
        -6 * SCALE_I <= r <= 6 * SCALE_I,
{
    if x < 0 {
        let y = erf_mag((-x) as u128);
        -y
    } else {
        erf_mag(x as u128)
    }
}

/// The pricing formulas clamp the CDF argument to twelve standard
/// deviations before scaling it by `1 / sqrt(2)`.
pub open spec fn spec_clamp(x: int) -> int {
    if x > CDF_CLAMP_I {
        CDF_CLAMP_I as int
    } else if x < -CDF_CLAMP_I {
        -(CDF_CLAMP_I as int)
    } else {
        x
    }
}

/// The argument handed to `erf` by the CDF.
pub open spec fn spec_erf_arg(x: int) -> int {
    spec_mul_s(spec_clamp(x), INV_SQRT2_I as int)
}

/// Twice the standard-normal CDF, at scale: `SCALE + erf(x / sqrt(2))`.
pub open spec fn spec_cdf2(x: int) -> int {
    (SCALE as int) + spec_erf(spec_erf_arg(x))
}

/// Twice the standard-normal CDF at scale, kept in the half-unit
/// representation so that no rounding happens before the final price.
pub fn norm_cdf2(x: i128) -> (r: i128)
    ensures
        r == spec_cdf2(x as int),
        -5 * SCALE_I <= r <= 7 * SCALE_I,
{
    let cx: i128 = if x > CDF_CLAMP_I {
        CDF_CLAMP_I
    } else if x < -CDF_CLAMP_I {
        -CDF_CLAMP_I
    } else {
        x
    };
    proof {
        lemma_mul_s_bound(cx as int, INV_SQRT2_I as int);
        lemma_mul_upper_bound(abs_i(cx as int), CDF_CLAMP_I as int, abs_i(INV_SQRT2_I as int), SCALE as int);
    }
    let u: i128 = mul_s_i(cx, INV_SQRT2_I);
    SCALE_I + erf(u)
}

/// The standard-normal CDF at scale: `norm_cdf(x)` approximates
/// `Phi(x / SCALE) * SCALE`, computed as `(1 + erf(x / sqrt(2))) / 2`.
pub fn norm_cdf(x: i128) -> (r: i128)
    ensures
        r == spec_cdf2(x as int) / 2,
{
    let c = norm_cdf2(x);
    div_floor_half(c)
}

/// The error function is odd: the sign is split off before the polynomial,
/// so the symmetry is exact at every nonzero argument. At zero itself the
/// approximation returns the small positive residue of the polynomial, so
/// zero is the one argument the law leaves out.
pub proof fn lemma_erf_odd(x: int)
    requires
        x != 0,
    ensures
        spec_erf(-x) == -spec_erf(x),
{
}

/// Seven scaled units out, the approximation saturates exactly: the
/// `exp(-m * m)` factor underflows the scale to zero and the formula
/// returns one.
pub proof fn lemma_erf_mag_saturates(m: int)
    requires
        m >= 7 * (SCALE as int),
    ensures
        spec_erf_mag(m) == SCALE,
{
    let si = SCALE as int;
    assert(m * m >= (49 * si) * si) by (nonlinear_arith)
        requires
            m >= 7 * si,
            si > 0,
    ;
    vstd::arithmetic::div_mod::lemma_div_multiples_vanish(49 * si, si);
    vstd::arithmetic::div_mod::lemma_div_is_ordered((49 * si) * si, m * m, si);
    assert(si * (49 * si) == (49 * si) * si) by (nonlinear_arith);
    let mm = (m * m) / si;
    assert(mm >= 49 * si);
    vstd::arithmetic::div_mod::lemma_div_is_ordered(49 * si, mm, si);
    vstd::arithmetic::div_mod::lemma_div_multiples_vanish(49, si);
    let n = mm / si;
    assert(n >= 49);
    let f = mm % si;
    vstd::arithmetic::div_mod::lemma_mod_division_less_than_divisor(mm, si);
    crate::expo::lemma_exp_neg_rest_bounds(f, si, 0);
    let base = crate::expo::spec_exp_neg_rest(f, si, 0);
    assert(base < vstd::arithmetic::power2::pow2(n as nat)) by {
        vstd::arithmetic::power2::lemma2_to64();
        vstd::arithmetic::power2::lemma2_to64_rest();
        vstd::arithmetic::power2::lemma_pow2_strictly_increases(40, n as nat);
    }
    crate::expo::lemma_exp_mul_dn_vanishes(base, n);
    assert(spec_exp_s(-mm) == 0);
    let poly = spec_horner(((si * si) / (si + ((ERF_P as int) * m) / si)));
    assert(poly * 0 == 0) by (nonlinear_arith);
    assert(spec_mul_s(poly, 0) == 0) by {
        vstd::arithmetic::div_mod::lemma_div_basics(si);
    }
}

/// Beyond the clamp the CDF is saturated exactly: at or above twelve
/// standard deviations it is one, at or below minus twelve it is zero.
pub proof fn lemma_cdf_saturates(x: int)
    ensures
        x >= CDF_CLAMP_I ==> spec_cdf2(x) == 2 * SCALE,
        x <= -CDF_CLAMP_I ==> spec_cdf2(x) == 0,
{
    let u = spec_mul_s(CDF_CLAMP_I as int, INV_SQRT2_I as int);
    assert(u == 8_485_281_374_244int) by (nonlinear_arith)
        requires
            u == div_trunc_s((CDF_CLAMP_I as int) * (INV_SQRT2_I as int)),
    ;
    lemma_erf_mag_saturates(u);
    if x >= CDF_CLAMP_I {
        assert(spec_clamp(x) == CDF_CLAMP_I);
    }
    if x <= -CDF_CLAMP_I {
        assert(spec_clamp(x) == -(CDF_CLAMP_I as int));
        assert((-(CDF_CLAMP_I as int)) * (INV_SQRT2_I as int) == -((CDF_CLAMP_I as int) * (
        INV_SQRT2_I as int))) by (nonlinear_arith);
        assert(spec_erf_arg(x) == -u);
    }
}

/// The two tails of the CDF are exact complements: for every argument
/// whose scaled erf argument is nonzero,
/// `norm_cdf2(x) + norm_cdf2(-x) == 2 * SCALE`.
pub proof fn lemma_cdf2_complement(x: int)
    requires
        spec_erf_arg(x) != 0,
    ensures
        spec_cdf2(x) + spec_cdf2(-x) == 2 * SCALE,
{
    let c = spec_clamp(x);
    assert(spec_clamp(-x) == -c);
    assert((-c) * (INV_SQRT2_I as int) == -(c * (INV_SQRT2_I as int))) by (nonlinear_arith);
    assert(spec_erf_arg(-x) == -spec_erf_arg(x));
    lemma_erf_odd(spec_erf_arg(x));
}

} // verus!
