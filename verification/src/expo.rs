//! The fixed-point exponential `exp_s`, used for the discount factor
//! `exp(-r * t)` and for the `exp(-x * x)` factor of the error function.
//!
//! The fractional part is a truncated Taylor series; the integer part is
//! handled by repeated multiplication with `e` or `1 / e`.

use vstd::prelude::*;
use crate::fixed::{lemma_mul_div_bound, lemma_mul_div_half, SCALE};
use vstd::arithmetic::mul::lemma_mul_upper_bound;

verus! {

/// Taylor terms kept for the fractional part; term 18 of `exp` on `[0, 1)`
/// is already below the resolution of the scale.
pub const EXP_TERMS: u128 = 18;

/// `1 / e` at twelve decimal places.
pub const E_INV_S: u128 = 367_879_441_171;

/// `e` at twelve decimal places.
pub const E_S: u128 = 2_718_281_828_459;

/// Largest argument `exp_s` accepts: `10`, at scale.
pub const EXP_ARG_MAX_I: i128 = 10_000_000_000_000;

/// Upper bound on every value `exp_s` returns: `3 * SCALE * 3^10`.
pub const EXP_POS_MAX: u128 = 177_147_000_000_000_000;

/// Powers of three.
pub open spec fn spec_pow3(n: int) -> int
    decreases n,
{
    if n <= 0 {
        1
    } else {
        3 * spec_pow3(n - 1)
    }
}

pub proof fn lemma_pow3_pos(n: int)
    ensures
        spec_pow3(n) >= 1,
    decreases n,
{
    if n > 0 {
        lemma_pow3_pos(n - 1);
    }
}

pub proof fn lemma_pow3_le_ten(n: int)
    requires
        n <= 10,
    ensures
        spec_pow3(n) <= 59049,
    decreases n,
{
    if n <= 0 {
    } else {
        lemma_pow3_le_ten(n - 1);
        reveal_with_fuel(spec_pow3, 11);
        assert(spec_pow3(10) == 59049);
        if n < 10 {
            // pow3(n) = 3 * pow3(n - 1) and pow3 is monotone upward
            lemma_pow3_mono(n, 10);
        }
    }
}

pub proof fn lemma_pow3_mono(a: int, b: int)
    requires
        a <= b,
    ensures
        spec_pow3(a) <= spec_pow3(b),
    decreases b - a,
{
    if a < b {
        lemma_pow3_mono(a, b - 1);
        lemma_pow3_pos(b - 1);
    }
}

/// The alternating tail `term_k - term_{k+1} + ...` of the Taylor series of
/// `exp(-f / SCALE)`, where each successive term is
/// `term * f / (SCALE * (k + 1))`, truncated.
pub open spec fn spec_exp_neg_rest(f: int, term: int, k: int) -> int
    decreases EXP_TERMS - k,
{
    if k >= EXP_TERMS {
        0
    } else {
        term - spec_exp_neg_rest(f, (term * f) / ((SCALE as int) * (k + 1)), k + 1)
    }
}

fn exp_neg_rest(f: u128, term: u128, k: u128) -> (r: u128)
    requires
        f < SCALE,
        term <= SCALE,
        k <= EXP_TERMS,
    ensures
        r == spec_exp_neg_rest(f as int, term as int, k as int),
        r <= term,
    decreases EXP_TERMS - k,
{
    if k >= EXP_TERMS {
        0
    } else {
        proof {
            lemma_mul_upper_bound(term as int, SCALE as int, f as int, SCALE as int);
            lemma_mul_div_bound(term as int, f as int, (SCALE as int) * ((k + 1) as int));
        }
        let next: u128 = term * f / (SCALE * (k + 1));
        let rest: u128 = exp_neg_rest(f, next, k + 1);
        term - rest
    }
}

/// The tail `term_k + term_{k+1} + ...` of the Taylor series of
/// `exp(f / SCALE)`.
pub open spec fn spec_exp_pos_rest(f: int, term: int, k: int) -> int
    decreases EXP_TERMS - k,
{
    if k >= EXP_TERMS {
        0
    } else {
        term + spec_exp_pos_rest(f, (term * f) / ((SCALE as int) * (k + 1)), k + 1)
    }
}

fn exp_pos_rest(f: u128, term: u128, k: u128) -> (r: u128)
    requires
        f < SCALE,
        term <= SCALE,
        k <= EXP_TERMS,
    ensures
        r == spec_exp_pos_rest(f as int, term as int, k as int),
        k >= 1 ==> r <= 2 * term,
        k == 0 ==> r <= term + 2 * f,
    decreases EXP_TERMS - k,
{
    if k >= EXP_TERMS {
        0
    } else {
        proof {
            lemma_mul_upper_bound(term as int, SCALE as int, f as int, SCALE as int);
            lemma_mul_div_bound(term as int, f as int, (SCALE as int) * ((k + 1) as int));
            if k >= 1 {
                lemma_mul_div_half(term as int, f as int, (SCALE as int) * ((k + 1) as int));
            } else {
                lemma_mul_div_bound(term as int, f as int, SCALE as int);
                // with term <= SCALE the first tail term is at most f
                vstd::arithmetic::mul::lemma_mul_inequality(term as int, SCALE as int, f as int);
                vstd::arithmetic::mul::lemma_mul_is_commutative(term as int, f as int);
                vstd::arithmetic::mul::lemma_mul_is_commutative(SCALE as int, f as int);
                vstd::arithmetic::div_mod::lemma_div_is_ordered(
                    (term as int) * (f as int),
                    (SCALE as int) * (f as int),
                    SCALE as int,
                );
                vstd::arithmetic::div_mod::lemma_div_multiples_vanish(f as int, SCALE as int);
            }
        }
        let next: u128 = term * f / (SCALE * (k + 1));
        let rest: u128 = exp_pos_rest(f, next, k + 1);
        term + rest
    }
}

/// `acc` multiplied `n` times by `1 / e`, truncating each step.
pub open spec fn spec_exp_mul_dn(acc: int, n: int) -> int
    decreases n,
{
    if n <= 0 {
        acc
    } else {
        spec_exp_mul_dn((acc * E_INV_S) / (SCALE as int), n - 1)
    }
}

fn exp_mul_dn(acc: u128, n: u128) -> (r: u128)
    requires
        acc <= SCALE,
    ensures
        r == spec_exp_mul_dn(acc as int, n as int),
        r <= acc,
    decreases n,
{
    if n == 0 {
        acc
    } else {
        proof {
            lemma_mul_div_bound(acc as int, E_INV_S as int, SCALE as int);
        }
        let next: u128 = acc * E_INV_S / SCALE;
        exp_mul_dn(next, n - 1)
    }
}

/// `acc` multiplied `n` times by `e`, truncating each step.
pub open spec fn spec_exp_mul_up(acc: int, n: int) -> int
    decreases n,
{
    if n <= 0 {
        acc
    } else {
        spec_exp_mul_up((acc * E_S) / (SCALE as int), n - 1)
    }
}

fn exp_mul_up(acc: u128, n: u128) -> (r: u128)
    requires
        n <= 10,
        (acc as int) * spec_pow3(n as int) <= EXP_POS_MAX,
    ensures
        r == spec_exp_mul_up(acc as int, n as int),
        r <= EXP_POS_MAX,
    decreases n,
{
    proof {
        lemma_pow3_pos(n as int);
        assert(acc <= EXP_POS_MAX) by (nonlinear_arith)
            requires
                (acc as int) * spec_pow3(n as int) <= EXP_POS_MAX,
                spec_pow3(n as int) >= 1,
                acc >= 0,
        ;
    }
    if n == 0 {
        acc
    } else {
        proof {
            // one step multiplies acc by at most three
            vstd::arithmetic::mul::lemma_mul_inequality(E_S as int, 3 * SCALE, acc as int);
            vstd::arithmetic::mul::lemma_mul_is_commutative(acc as int, E_S as int);
            vstd::arithmetic::div_mod::lemma_div_is_ordered(
                (acc as int) * (E_S as int),
                (3 * (SCALE as int)) * (acc as int),
                SCALE as int,
            );
            vstd::arithmetic::div_mod::lemma_div_multiples_vanish(
                3 * (acc as int),
                SCALE as int,
            );
            assert((3 * (SCALE as int)) * (acc as int) == (SCALE as int) * (3 * (acc as int)))
                by (nonlinear_arith);
            lemma_mul_div_bound((acc as int) * 3, SCALE as int, SCALE as int);
            vstd::arithmetic::div_mod::lemma_div_pos_is_pos(
                (acc as int) * (E_S as int),
                SCALE as int,
            );
            vstd::arithmetic::mul::lemma_mul_nonnegative(acc as int, E_S as int);
        }
        let next: u128 = acc * E_S / SCALE;
        proof {
            let p = spec_pow3((n - 1) as int);
            lemma_pow3_pos((n - 1) as int);
            assert((next as int) * p <= EXP_POS_MAX) by (nonlinear_arith)
                requires
                    next <= 3 * (acc as int),
                    spec_pow3(n as int) == 3 * p,
                    (acc as int) * spec_pow3(n as int) <= EXP_POS_MAX,
                    p >= 1,
                    next >= 0,
                    acc >= 0,
            ;
        }
        exp_mul_up(next, n - 1)
    }
}

/// The alternating tail lies between zero and its leading term.
pub proof fn lemma_exp_neg_rest_bounds(f: int, term: int, k: int)
    requires
        0 <= f <= SCALE,
        0 <= term,
        0 <= k,
    ensures
        0 <= spec_exp_neg_rest(f, term, k) <= term,
    decreases EXP_TERMS - k,
{
    if k >= EXP_TERMS {
    } else {
        lemma_mul_div_bound(term, f, (SCALE as int) * (k + 1));
        lemma_exp_neg_rest_bounds(f, (term * f) / ((SCALE as int) * (k + 1)), k + 1);
    }
}

/// Repeated multiplication by `1 / e` reaches zero once the step count
/// outgrows the bits of the start value: each step at least halves.
pub proof fn lemma_exp_mul_dn_vanishes(acc: int, n: int)
    requires
        0 <= acc,
        0 <= n,
        acc < vstd::arithmetic::power2::pow2(n as nat),
    ensures
        spec_exp_mul_dn(acc, n) == 0,
    decreases n,
{
    if n == 0 {
        assert(vstd::arithmetic::power2::pow2(0) == 1) by {
            vstd::arithmetic::power2::lemma2_to64();
        }
    } else {
        lemma_mul_div_half(acc, E_INV_S as int, SCALE as int);
        let next = (acc * E_INV_S) / (SCALE as int);
        vstd::arithmetic::power2::lemma_pow2_unfold(n as nat);
        lemma_exp_mul_dn_vanishes(next, n - 1);
    }
}

/// The fixed-point exponential: `exp_s(v)` approximates
/// `exp(v / SCALE) * SCALE`, truncating toward zero at each step.
pub open spec fn spec_exp_s(v: int) -> int {
    if v > 0 {
        let n = v / (SCALE as int);
        let f = v % (SCALE as int);
        spec_exp_mul_up(spec_exp_pos_rest(f, SCALE as int, 0), n)
    } else {
        let u = -v;
        let n = u / (SCALE as int);
        let f = u % (SCALE as int);
        spec_exp_mul_dn(spec_exp_neg_rest(f, SCALE as int, 0), n)
    }
}

/// `exp(v / SCALE) * SCALE`, truncated: nonnegative, at most `EXP_POS_MAX`,
/// and at most `SCALE` for nonpositive arguments.
pub fn exp_s(v: i128) -> (r: u128)
    requires
        i128::MIN < v <= EXP_ARG_MAX_I,
    ensures
        r == spec_exp_s(v as int),
        r <= EXP_POS_MAX,
        v <= 0 ==> r <= SCALE,
{
    if v > 0 {
        let u: u128 = v as u128;
        let n: u128 = u / SCALE;
        let f: u128 = u % SCALE;
        let base: u128 = exp_pos_rest(f, SCALE, 0);
        proof {
            lemma_pow3_le_ten(n as int);
            lemma_pow3_pos(n as int);
            lemma_mul_upper_bound(
                base as int,
                3 * (SCALE as int),
                spec_pow3(n as int),
                59049,
            );
        }
        exp_mul_up(base, n)
    } else {
        let u: u128 = (-v) as u128;
        let n: u128 = u / SCALE;
        let f: u128 = u % SCALE;
        let base: u128 = exp_neg_rest(f, SCALE, 0);
        exp_mul_dn(base, n)
    }
}

} // verus!
