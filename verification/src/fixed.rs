//! Fixed-point scalars and the rounding primitives the model is built on.
//!
//! A fixed-point number `v` stands for the real number `v / SCALE`, so the
//! representation carries twelve decimal places.

use vstd::prelude::*;
use vstd::arithmetic::div_mod::{
    lemma_div_basics, lemma_div_is_ordered, lemma_div_is_ordered_by_denominator,
    lemma_div_multiples_vanish, lemma_div_pos_is_pos, lemma_fundamental_div_mod,
    lemma_fundamental_div_mod_converse_div, lemma_mod_division_less_than_divisor,
};
use vstd::arithmetic::mul::{
    lemma_mul_inequality, lemma_mul_is_commutative, lemma_mul_nonnegative,
};

verus! {

/// A fixed-point value `v` stands for the real number `v / SCALE`.
pub const SCALE: u128 = 1_000_000_000_000;

/// `SCALE` as a signed value, for signed fixed-point work.
pub const SCALE_I: i128 = 1_000_000_000_000;

/// Twice the scale: the denominator of the half-unit representation that
/// the normal CDF uses internally.
pub const TWO_SCALE: u128 = 2_000_000_000_000;

/// Absolute value of a mathematical integer.
pub open spec fn abs_i(x: int) -> int {
    if x < 0 {
        -x
    } else {
        x
    }
}

/// Division by a positive divisor, truncating toward zero.
pub open spec fn div_trunc(a: int, d: int) -> int {
    if a >= 0 {
        a / d
    } else {
        -((-a) / d)
    }
}

/// Truncating division by `SCALE`: the rounding applied when two
/// fixed-point numbers are multiplied.
pub open spec fn div_trunc_s(a: int) -> int {
    div_trunc(a, SCALE as int)
}

/// The fixed-point product of `a` and `b`, truncated toward zero.
pub open spec fn spec_mul_s(a: int, b: int) -> int {
    div_trunc_s(a * b)
}

/// Truncating signed division by a positive divisor.
pub fn tdiv_div(a: i128, d: u128) -> (r: i128)
    requires
        a > i128::MIN,
        1 <= d,
    ensures
        r == div_trunc(a as int, d as int),
{
    if a >= 0 {
        let q: u128 = (a as u128) / d;
        proof {
            lemma_div_is_ordered_by_denominator(a as int, 1, d as int);
        }
        q as i128
    } else {
        let m: u128 = (-a) as u128;
        let q: u128 = m / d;
        proof {
            lemma_div_is_ordered_by_denominator(m as int, 1, d as int);
        }
        -(q as i128)
    }
}

/// Truncating signed division by `SCALE`.
pub fn tdiv_s(a: i128) -> (r: i128)
    requires
        a > i128::MIN,
    ensures
        r == div_trunc_s(a as int),
{
    tdiv_div(a, SCALE)
}

/// The fixed-point product of two signed values, truncated toward zero.
pub fn mul_s_i(a: i128, b: i128) -> (r: i128)
    requires
        a > i128::MIN,
        b > i128::MIN,
        abs_i(a as int) * abs_i(b as int) <= u128::MAX,
    ensures
        r == spec_mul_s(a as int, b as int),
{
    let ma: u128 = if a >= 0 {
        a as u128
    } else {
        (-a) as u128
    };
    let mb: u128 = if b >= 0 {
        b as u128
    } else {
        (-b) as u128
    };
    let neg: bool = (a < 0) != (b < 0);
    proof {
        assert(ma == abs_i(a as int) && mb == abs_i(b as int));
        assert(ma * mb <= u128::MAX) by (nonlinear_arith)
            requires
                ma == abs_i(a as int),
                mb == abs_i(b as int),
                abs_i(a as int) * abs_i(b as int) <= u128::MAX,
        ;
    }
    let p: u128 = ma * mb;
    let q: u128 = p / SCALE;
    proof {
        if neg {
            assert((a as int) * (b as int) == -(p as int)) by (nonlinear_arith)
                requires
                    p == ma * mb,
                    ma == abs_i(a as int),
                    mb == abs_i(b as int),
                    (a < 0) != (b < 0),
            ;
        } else {
            assert((a as int) * (b as int) == p as int) by (nonlinear_arith)
                requires
                    p == ma * mb,
                    ma == abs_i(a as int),
                    mb == abs_i(b as int),
                    !((a < 0) != (b < 0)),
            ;
        }
    }
    let qi: i128 = q as i128;
    if neg {
        -qi
    } else {
        qi
    }
}

/// Floor division by `TWO_SCALE`: the final rounding of a price.
pub fn div_floor2(a: i128) -> (r: i128)
    requires
        a > i128::MIN,
    ensures
        r == (a as int) / (TWO_SCALE as int),
{
    if a >= 0 {
        ((a as u128) / TWO_SCALE) as i128
    } else {
        let m: u128 = (-a) as u128;
        let q: u128 = (m - 1) / TWO_SCALE + 1;
        proof {
            let mi = m as int;
            let d = TWO_SCALE as int;
            lemma_fundamental_div_mod(mi - 1, d);
            lemma_mod_division_less_than_divisor(mi - 1, d);
            let q0 = (mi - 1) / d;
            let r0 = (mi - 1) % d;
            assert(a as int == (-(q0 + 1)) * d + (d - 1 - r0)) by (nonlinear_arith)
                requires
                    mi - 1 == d * q0 + r0,
                    a as int == -mi,
            ;
            lemma_fundamental_div_mod_converse_div(a as int, d, -(q0 + 1), d - 1 - r0);
        }
        -(q as i128)
    }
}

/// Floor division by two, used to halve the double-scale CDF value.
pub fn div_floor_half(a: i128) -> (r: i128)
    requires
        a > i128::MIN,
    ensures
        r == (a as int) / 2,
{
    if a >= 0 {
        ((a as u128) / 2) as i128
    } else {
        let m: u128 = (-a) as u128;
        let q: u128 = (m - 1) / 2 + 1;
        proof {
            let mi = m as int;
            lemma_fundamental_div_mod(mi - 1, 2);
            lemma_mod_division_less_than_divisor(mi - 1, 2);
            let q0 = (mi - 1) / 2;
            let r0 = (mi - 1) % 2;
            assert(a as int == (-(q0 + 1)) * 2 + (1 - r0)) by (nonlinear_arith)
                requires
                    mi - 1 == 2 * q0 + r0,
                    a as int == -mi,
            ;
            lemma_fundamental_div_mod_converse_div(a as int, 2, -(q0 + 1), 1 - r0);
        }
        -(q as i128)
    }
}

/// Multiplying a nonnegative `a` by `b / d <= 1` cannot increase it.
pub proof fn lemma_mul_div_bound(a: int, b: int, d: int)
    requires
        0 <= a,
        0 <= b <= d,
        1 <= d,
    ensures
        0 <= (a * b) / d <= a,
{
    lemma_mul_inequality(b, d, a);
    lemma_mul_is_commutative(a, b);
    lemma_mul_is_commutative(a, d);
    lemma_div_is_ordered(a * b, a * d, d);
    lemma_div_multiples_vanish(a, d);
    lemma_mul_nonnegative(a, b);
    lemma_div_pos_is_pos(a * b, d);
}

/// The magnitude of a product is the product of the magnitudes.
pub proof fn lemma_mul_abs(a: int, b: int)
    ensures
        abs_i(a * b) == abs_i(a) * abs_i(b),
{
    if a >= 0 && b >= 0 {
        lemma_mul_nonnegative(a, b);
    } else if a >= 0 && b < 0 {
        assert(a * b == -(a * (-b)) && a * (-b) >= 0) by (nonlinear_arith)
            requires
                a >= 0,
                b < 0,
        ;
    } else if a < 0 && b >= 0 {
        assert(a * b == -((-a) * b) && (-a) * b >= 0) by (nonlinear_arith)
            requires
                a < 0,
                b >= 0,
        ;
    } else {
        assert(a * b == (-a) * (-b) && (-a) * (-b) >= 0) by (nonlinear_arith)
            requires
                a < 0,
                b < 0,
        ;
    }
}

/// Truncating division divides the magnitude and cannot grow it.
pub proof fn lemma_div_trunc_mag(a: int, d: int)
    requires
        1 <= d,
    ensures
        abs_i(div_trunc(a, d)) == abs_i(a) / d,
        abs_i(div_trunc(a, d)) <= abs_i(a),
{
    if a >= 0 {
        lemma_div_pos_is_pos(a, d);
    } else {
        lemma_div_pos_is_pos(-a, d);
    }
    lemma_div_is_ordered_by_denominator(abs_i(a), 1, d);
    lemma_div_basics(abs_i(a));
}

/// A fixed-point product with a factor in `[0, 1]` cannot grow in magnitude.
pub proof fn lemma_mul_s_bound(a: int, b: int)
    requires
        0 <= b <= SCALE,
    ensures
        abs_i(spec_mul_s(a, b)) <= abs_i(a),
{
    if a >= 0 {
        lemma_mul_div_bound(a, b, SCALE as int);
    } else {
        assert(a * b == -((-a) * b)) by (nonlinear_arith);
        lemma_mul_div_bound(-a, b, SCALE as int);
    }
}

/// Multiplying a nonnegative `a` by `b / d <= 1 / 2` at least halves it.
pub proof fn lemma_mul_div_half(a: int, b: int, d: int)
    requires
        0 <= a,
        0 <= b,
        1 <= d,
        2 * b <= d,
    ensures
        0 <= 2 * ((a * b) / d) <= a,
{
    lemma_mul_nonnegative(a, b);
    lemma_div_pos_is_pos(a * b, d);
    if b == 0 {
        assert(a * b == 0) by (nonlinear_arith)
            requires
                b == 0,
        ;
    } else {
        let m = a / 2;
        let s = a % 2;
        lemma_fundamental_div_mod(a, 2);
        lemma_mod_division_less_than_divisor(a, 2);
        assert(a * b == (2 * b) * m + s * b) by (nonlinear_arith)
            requires
                a == 2 * m + s,
        ;
        assert(0 <= s * b && s * b < 2 * b) by (nonlinear_arith)
            requires
                0 <= s < 2,
                1 <= b,
        ;
        lemma_fundamental_div_mod_converse_div(a * b, 2 * b, m, s * b);
        lemma_div_is_ordered_by_denominator(a * b, 2 * b, d);
    }
}

/// The integer square root: the largest `r` with `r * r <= n`.
pub open spec fn spec_isqrt(n: nat) -> nat
    decreases n,
{
    if n == 0 {
        0
    } else {
        let r = spec_isqrt((n - 1) as nat);
        if (r + 1) * (r + 1) <= n {
            r + 1
        } else {
            r
        }
    }
}

/// The integer square root of `n` is the unique `r` with
/// `r * r <= n < (r + 1) * (r + 1)`.
pub proof fn lemma_isqrt_bounds(n: nat)
    ensures
        spec_isqrt(n) * spec_isqrt(n) <= n,
        n < (spec_isqrt(n) + 1) * (spec_isqrt(n) + 1),
    decreases n,
{
    reveal_with_fuel(spec_isqrt, 2);
    let q = spec_isqrt(n);
    if n == 0 {
        assert(q == 0);
        assert(q * q <= n && n < (q + 1) * (q + 1)) by (nonlinear_arith)
            requires
                q == 0,
                n == 0,
        ;
    } else {
        lemma_isqrt_bounds((n - 1) as nat);
        let r = spec_isqrt((n - 1) as nat);
        if (r + 1) * (r + 1) <= n {
            assert(q == r + 1);
            assert(q * q <= n && n < (q + 1) * (q + 1)) by (nonlinear_arith)
                requires
                    q == r + 1,
                    (r + 1) * (r + 1) <= n,
                    n - 1 < (r + 1) * (r + 1),
            ;
        } else {
            assert(q == r);
            assert(q * q <= n && n < (q + 1) * (q + 1)) by (nonlinear_arith)
                requires
                    q == r,
                    r * r <= n - 1,
                    !((r + 1) * (r + 1) <= n),
            ;
        }
    }
}

pub proof fn lemma_isqrt_unique(n: nat, r: nat)
    requires
        r * r <= n,
        n < (r + 1) * (r + 1),
    ensures
        r == spec_isqrt(n),
{
    lemma_isqrt_bounds(n);
    let q = spec_isqrt(n);
    assert(r == q) by (nonlinear_arith)
        requires
            r * r <= n,
            n < (r + 1) * (r + 1),
            q * q <= n,
            n < (q + 1) * (q + 1),
    ;
}

fn isqrt_rec(n: u128, lo: u128, hi: u128) -> (r: u128)
    requires
        lo < hi <= 0x1_0000_0000_0000_0000,
        (lo as int) * (lo as int) <= n,
        (n as int) < (hi as int) * (hi as int),
    ensures
        (r as int) * (r as int) <= n,
        (n as int) < (r + 1) * (r + 1),
    decreases hi - lo,
{
    if hi - lo == 1 {
        lo
    } else {
        let mid: u128 = lo + (hi - lo) / 2;
        proof {
            assert((mid as int) * (mid as int) <= u128::MAX) by (nonlinear_arith)
                requires
                    mid < 0x1_0000_0000_0000_0000,
            ;
        }
        if mid * mid <= n {
            isqrt_rec(n, mid, hi)
        } else {
            isqrt_rec(n, lo, mid)
        }
    }
}

/// The integer square root of any `u128`.
pub fn isqrt(n: u128) -> (r: u128)
    ensures
        r == spec_isqrt(n as nat),
        (r as int) * (r as int) <= n,
        (n as int) < (r + 1) * (r + 1),
{
    proof {
        assert((n as int) < 0x1_0000_0000_0000_0000int * 0x1_0000_0000_0000_0000int)
            by (nonlinear_arith)
            requires
                n <= u128::MAX,
        ;
    }
    let r = isqrt_rec(n, 0, 0x1_0000_0000_0000_0000);
    proof {
        lemma_isqrt_unique(n as nat, r as nat);
    }
    r
}

} // verus!
