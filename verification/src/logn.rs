//! The fixed-point natural logarithm `ln_s`, used for the log-moneyness
//! term of the pricing formulas.
//!
//! The argument is brought into `[1, 2)` by halving or doubling, and the
//! remainder is evaluated through the series of `atanh`:
//! `ln(m) = 2 * (z + z^3 / 3 + z^5 / 5 + ...)` with `z = (m - 1) / (m + 1)`.

use vstd::prelude::*;
use crate::fixed::{lemma_mul_div_bound, lemma_mul_div_half, SCALE, SCALE_I, TWO_SCALE};
use vstd::arithmetic::div_mod::{
    lemma_div_is_ordered_by_denominator, lemma_div_pos_is_pos, lemma_fundamental_div_mod,
    lemma_mod_division_less_than_divisor,
};
use vstd::arithmetic::mul::{lemma_mul_inequality, lemma_mul_nonnegative, lemma_mul_upper_bound};
use vstd::arithmetic::power2::{
    lemma2_to64, lemma2_to64_rest, lemma_pow2_adds, lemma_pow2_pos, lemma_pow2_strictly_increases,
    lemma_pow2_unfold, pow2,
};

verus! {

/// `ln 2` at twelve decimal places.
pub const LN2_S: u128 = 693_147_180_560;

/// Last odd series index kept: `z^25 / 25` is below the resolution of the
/// scale for `z <= 1 / 3`.
pub const ATANH_LAST: u128 = 25;

/// Largest argument `ln_s` accepts.
pub const LN_ARG_MAX: u128 = 1_000_000_000_000_000_000;

/// Any exponent with `pow2(c) <= u128::MAX` is at most 127.
proof fn lemma_pow2_exponent_small(c: nat)
    requires
        pow2(c) <= u128::MAX,
    ensures
        c <= 127,
{
    if c > 127 {
        lemma2_to64();
        lemma_pow2_adds(64, 64);
        if c > 128 {
            lemma_pow2_strictly_increases(128, c);
        }
    }
}

/// Any exponent with `pow2(c) < 2 * SCALE` is at most 40.
proof fn lemma_pow2_exponent_le_40(c: nat)
    requires
        pow2(c) < TWO_SCALE,
    ensures
        c <= 40,
{
    if c > 40 {
        lemma2_to64();
        lemma2_to64_rest();
        if c > 41 {
            lemma_pow2_strictly_increases(41, c);
        }
    }
}

/// Any exponent with `pow2(c) <= 1_000_000` is at most 19.
proof fn lemma_pow2_exponent_le_19(c: nat)
    requires
        pow2(c) <= 1_000_000,
    ensures
        c <= 19,
{
    if c > 19 {
        lemma2_to64();
        if c > 20 {
            lemma_pow2_strictly_increases(20, c);
        }
    }
}

/// Halve `m` until it lies below `2 * SCALE`; the second component counts
/// the halvings.
pub open spec fn spec_ln_shift_dn(m: int) -> (int, int)
    decreases m,
{
    if m < TWO_SCALE {
        (m, 0int)
    } else {
        let r = spec_ln_shift_dn(m / 2);
        (r.0, r.1 + 1)
    }
}

fn ln_shift_dn(m: u128) -> (res: (u128, u128))
    requires
        SCALE <= m,
    ensures
        res.0 as int == spec_ln_shift_dn(m as int).0,
        res.1 as int == spec_ln_shift_dn(m as int).1,
        SCALE <= res.0 < TWO_SCALE,
        (SCALE as int) * pow2(res.1 as nat) <= m as int,
    decreases m,
{
    if m < TWO_SCALE {
        proof {
            lemma2_to64();
        }
        (m, 0)
    } else {
        let r = ln_shift_dn(m / 2);
        proof {
            let c = r.1 as nat;
            lemma_pow2_pos(c);
            assert(pow2(c) <= m / 2) by (nonlinear_arith)
                requires
                    (SCALE as int) * pow2(c) <= m / 2,
                    SCALE >= 1,
                    pow2(c) >= 0,
            ;
            lemma_pow2_exponent_small(c);
            lemma_pow2_adds(c, 1);
            lemma2_to64();
            assert((SCALE as int) * pow2(c + 1) <= m as int) by (nonlinear_arith)
                requires
                    (SCALE as int) * pow2(c) <= m / 2,
                    pow2(c + 1) == 2 * pow2(c),
                    2 * (m / 2) <= m,
            ;
        }
        (r.0, r.1 + 1)
    }
}

/// Double `m` until it reaches `SCALE`; the second component counts the
/// doublings.
pub open spec fn spec_ln_shift_up(m: int) -> (int, int)
    decreases TWO_SCALE - m,
{
    if m <= 0 {
        (m, 0int)
    } else if m >= SCALE {
        (m, 0int)
    } else {
        let r = spec_ln_shift_up(2 * m);
        (r.0, r.1 + 1)
    }
}

fn ln_shift_up(m: u128) -> (res: (u128, u128))
    requires
        1 <= m < TWO_SCALE,
    ensures
        res.0 as int == spec_ln_shift_up(m as int).0,
        res.1 as int == spec_ln_shift_up(m as int).1,
        SCALE <= res.0 < TWO_SCALE,
        res.0 as int == (m as int) * pow2(res.1 as nat),
    decreases TWO_SCALE - m,
{
    if m >= SCALE {
        proof {
            lemma2_to64();
        }
        (m, 0)
    } else {
        let r = ln_shift_up(2 * m);
        proof {
            let c = r.1 as nat;
            lemma_pow2_pos(c);
            assert(pow2(c) <= r.0 as int) by (nonlinear_arith)
                requires
                    r.0 as int == (2 * (m as int)) * pow2(c),
                    m >= 1,
                    pow2(c) >= 1,
            ;
            lemma_pow2_exponent_le_40(c);
            lemma_pow2_adds(c, 1);
            lemma2_to64();
            assert((m as int) * pow2(c + 1) == (2 * (m as int)) * pow2(c)) by (nonlinear_arith)
                requires
                    pow2(c + 1) == 2 * pow2(c),
            ;
        }
        (r.0, r.1 + 1)
    }
}

/// The tail `term / k + term * zsq / SCALE / (k + 2) + ...` of the series
/// of `atanh`, truncated at index `ATANH_LAST`.
pub open spec fn spec_atanh_rest(zsq: int, term: int, k: int) -> int
    decreases ATANH_LAST + 2 - k,
{
    if k > ATANH_LAST {
        0
    } else {
        term / k + spec_atanh_rest(zsq, (term * zsq) / (SCALE as int), k + 2)
    }
}

fn atanh_rest(zsq: u128, term: u128, k: u128) -> (r: u128)
    requires
        8 * zsq <= SCALE,
        term <= SCALE,
        1 <= k <= ATANH_LAST + 2,
    ensures
        r == spec_atanh_rest(zsq as int, term as int, k as int),
        r <= 2 * term,
    decreases ATANH_LAST + 2 - k,
{
    if k > ATANH_LAST {
        0
    } else {
        proof {
            lemma_mul_upper_bound(term as int, SCALE as int, zsq as int, SCALE as int);
            lemma_mul_div_bound(term as int, zsq as int, SCALE as int);
            lemma_mul_div_half(term as int, zsq as int, SCALE as int);
            lemma_div_is_ordered_by_denominator(term as int, 1, k as int);
        }
        let next: u128 = term * zsq / SCALE;
        let head: u128 = term / k;
        let rest: u128 = atanh_rest(zsq, next, k + 2);
        head + rest
    }
}

/// The series part of the logarithm of `m`, for `m` in `[SCALE, 2 * SCALE)`:
/// `2 * atanh((m - SCALE) / (m + SCALE))`, at scale.
pub open spec fn spec_atanh_at(m: int) -> int {
    let z = ((m - SCALE) * SCALE) / (m + SCALE);
    spec_atanh_rest((z * z) / (SCALE as int), z, 1)
}

/// The fixed-point natural logarithm: `spec_ln(v)` approximates
/// `ln(v / SCALE) * SCALE`.
pub open spec fn spec_ln(v: int) -> int {
    if v >= SCALE {
        let r = spec_ln_shift_dn(v);
        r.1 * LN2_S + 2 * spec_atanh_at(r.0)
    } else {
        let r = spec_ln_shift_up(v);
        -(r.1 * LN2_S) + 2 * spec_atanh_at(r.0)
    }
}

/// The series part, executable: argument in `[SCALE, 2 * SCALE)`.
fn atanh_at(m: u128) -> (r: u128)
    requires
        SCALE <= m < TWO_SCALE,
    ensures
        r == spec_atanh_at(m as int),
        r <= SCALE,
{
    proof {
        lemma_mul_upper_bound(m as int - SCALE, SCALE as int, SCALE as int, SCALE as int);
        lemma_mul_nonnegative(m as int - SCALE, SCALE as int);
        lemma_div_pos_is_pos((m as int - SCALE) * SCALE, m as int + SCALE);
    }
    let z: u128 = (m - SCALE) * SCALE / (m + SCALE);
    proof {
        let zi = z as int;
        let a = (m as int - SCALE) * (SCALE as int);
        let d = m as int + SCALE;
        lemma_fundamental_div_mod(a, d);
        lemma_mod_division_less_than_divisor(a, d);
        // three times the numerator stays below the denominator times SCALE
        assert(3 * ((m as int - SCALE) * (SCALE as int)) <= (m as int + SCALE) * (SCALE as int))
            by (nonlinear_arith)
            requires
                m < TWO_SCALE,
        ;
        assert(3 * zi <= SCALE) by (nonlinear_arith)
            requires
                a == d * zi + a % d,
                0 <= a % d,
                3 * a <= d * (SCALE as int),
                d > 0,
                zi >= 0,
        ;
        lemma_mul_upper_bound(zi, 333_333_333_333int, zi, 333_333_333_333int);
    }
    let zsq: u128 = z * z / SCALE;
    let ath: u128 = atanh_rest(zsq, z, 1);
    ath
}

/// `ln(v / SCALE) * SCALE`, truncated term by term.
pub fn ln_s(v: u128) -> (r: i128)
    requires
        1 <= v <= LN_ARG_MAX,
    ensures
        r == spec_ln(v as int),
        -32 * SCALE_I <= r <= 32 * SCALE_I,
{
    if v >= SCALE {
        let red = ln_shift_dn(v);
        proof {
            let c = red.1 as nat;
            lemma_pow2_pos(c);
            assert(pow2(c) <= 1_000_000) by (nonlinear_arith)
                requires
                    (SCALE as int) * pow2(c) <= v as int,
                    v <= LN_ARG_MAX,
                    LN_ARG_MAX == 1_000_000 * SCALE,
                    pow2(c) >= 1,
                    SCALE >= 1,
            ;
            lemma_pow2_exponent_le_19(c);
        }
        let ath: u128 = atanh_at(red.0);
        let whole: u128 = red.1 * LN2_S;
        (whole as i128) + 2 * (ath as i128)
    } else {
        let red = ln_shift_up(v);
        proof {
            let c = red.1 as nat;
            lemma_pow2_pos(c);
            assert(pow2(c) <= red.0 as int) by (nonlinear_arith)
                requires
                    red.0 as int == (v as int) * pow2(c),
                    v >= 1,
                    pow2(c) >= 1,
            ;
            lemma_pow2_exponent_le_40(c);
        }
        let ath: u128 = atanh_at(red.0);
        let whole: u128 = red.1 * LN2_S;
        -(whole as i128) + 2 * (ath as i128)
    }
}

} // verus!
