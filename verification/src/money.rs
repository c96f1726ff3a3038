//! Exact fixed-point money arithmetic.
//!
//! A money value is an `i64` counting units of 1/10,000 dollar, so a cent is
//! `100` units and a dollar is `10_000`. Rounding to currency means rounding
//! to the nearest multiple of 100 units, with ties going away from zero, the
//! way a statement rounds a fraction of a cent.

use vstd::prelude::*;
use vstd::arithmetic::div_mod::lemma_fundamental_div_mod;
use vstd::arithmetic::div_mod::lemma_fundamental_div_mod_converse_div;
use vstd::arithmetic::div_mod::lemma_mod_division_less_than_divisor;

verus! {

/// Largest magnitude the rounding helpers accept without risking overflow.
pub const MONEY_MAX: i64 = 9_000_000_000_000_000_000;

/// The nearest integer to the exact quotient `a / b`, ties away from zero.
/// Meaningful for `b > 0`.
pub open spec fn div_nearest(a: int, b: int) -> int {
    if a >= 0 {
        (2 * a + b) / (2 * b)
    } else {
        -((2 * (-a) + b) / (2 * b))
    }
}

/// `a` rounded to the nearest multiple of the step `m`, ties away from zero.
pub open spec fn round_to_step(a: int, m: int) -> int {
    m * div_nearest(a, m)
}

/// The mathematical meaning of [`round_to_currency`]: the nearest multiple
/// of 100 units (one cent), ties away from zero.
pub open spec fn spec_round_to_currency(a: int) -> int {
    round_to_step(a, 100)
}

/// The step, in units, that rounding to `places` decimal places keeps.
/// Our grid has four decimal places, so `places >= 4` keeps every unit.
pub open spec fn decimal_step(places: int) -> int {
    if places <= 0 {
        10000
    } else if places == 1 {
        1000
    } else if places == 2 {
        100
    } else if places == 3 {
        10
    } else {
        1
    }
}

/// How far `div_nearest(a, b)` can sit from the exact quotient:
/// `2*b*div_nearest(a, b)` is within `b` of `2*a`.
pub proof fn lemma_div_nearest_bounds(a: int, b: int)
    requires
        b > 0,
    ensures
        2 * a - b <= 2 * b * div_nearest(a, b) <= 2 * a + b,
{
    if a >= 0 {
        let q = (2 * a + b) / (2 * b);
        lemma_fundamental_div_mod(2 * a + b, 2 * b);
        lemma_mod_division_less_than_divisor(2 * a + b, 2 * b);
        assert(2 * a + b == (2 * b) * q + (2 * a + b) % (2 * b));
    } else {
        let q = (2 * (-a) + b) / (2 * b);
        lemma_fundamental_div_mod(2 * (-a) + b, 2 * b);
        lemma_mod_division_less_than_divisor(2 * (-a) + b, 2 * b);
        assert(2 * (-a) + b == (2 * b) * q + (2 * (-a) + b) % (2 * b));
        assert(div_nearest(a, b) == -q);
        assert((2 * b) * (-q) == -((2 * b) * q)) by (nonlinear_arith);
        assert(2 * b * div_nearest(a, b) == (2 * b) * (-q)) by (nonlinear_arith)
            requires
                div_nearest(a, b) == -q;
    }
}

/// Rounding an exact multiple of the divisor returns the exact quotient.
pub proof fn lemma_div_nearest_of_multiple(q: int, b: int)
    requires
        b > 0,
    ensures
        div_nearest(q * b, b) == q,
{
    if q >= 0 {
        assert(q * b >= 0) by (nonlinear_arith)
            requires
                q >= 0,
                b > 0;
        assert(2 * (q * b) + b == q * (2 * b) + b) by (nonlinear_arith);
        lemma_fundamental_div_mod_converse_div(2 * (q * b) + b, 2 * b, q, b);
    } else {
        assert(q * b < 0) by (nonlinear_arith)
            requires
                q < 0,
                b > 0;
        assert(2 * (-(q * b)) + b == (-q) * (2 * b) + b) by (nonlinear_arith);
        lemma_fundamental_div_mod_converse_div(2 * (-(q * b)) + b, 2 * b, -q, b);
    }
}

/// Rounding to a step is idempotent.
pub proof fn lemma_round_to_step_idempotent(a: int, m: int)
    requires
        m > 0,
    ensures
        round_to_step(round_to_step(a, m), m) == round_to_step(a, m),
{
    let q = div_nearest(a, m);
    lemma_div_nearest_of_multiple(q, m);
    assert(round_to_step(a, m) == q * m);
}

/// Currency rounding never moves a value by more than half a cent.
pub proof fn lemma_round_to_currency_close(a: int)
    ensures
        a - 50 <= spec_round_to_currency(a) <= a + 50,
{
    lemma_div_nearest_bounds(a, 100);
}

/// A whole-cent value is its own currency rounding.
pub proof fn lemma_round_of_multiple(x: int)
    requires
        x % 100 == 0,
    ensures
        spec_round_to_currency(x) == x,
{
    lemma_fundamental_div_mod(x, 100);
    assert(x == 100 * (x / 100));
    lemma_div_nearest_of_multiple(x / 100, 100);
    assert(div_nearest((x / 100) * 100, 100) == x / 100);
    assert((x / 100) * 100 == x);
}

/// Currency rounding is idempotent.
pub proof fn lemma_round_to_currency_idempotent(a: int)
    ensures
        spec_round_to_currency(spec_round_to_currency(a)) == spec_round_to_currency(a),
{
    lemma_round_to_step_idempotent(a, 100);
}

/// The exact quotient is bounded by the dividend when the divisor is at
/// least one, which bounds the helper's result for overflow reasoning.
pub proof fn lemma_div_nearest_magnitude(a: int, b: int)
    requires
        b > 0,
        a >= 0,
    ensures
        0 <= div_nearest(a, b) <= a,
{
    let q = (2 * a + b) / (2 * b);
    lemma_fundamental_div_mod(2 * a + b, 2 * b);
    lemma_mod_division_less_than_divisor(2 * a + b, 2 * b);
    assert((2 * b) * q <= 2 * a + b);
    assert((2 * b) * q > 2 * a - b);
    assert(q <= a) by (nonlinear_arith)
        requires
            (2 * b) * q <= 2 * a + b,
            b > 0,
            a >= 0;
    assert(q >= 0) by (nonlinear_arith)
        requires
            (2 * b) * q > 2 * a - b,
            b > 0,
            a >= 0;
}

/// Nearest-integer division on machine integers.
///
/// Used for every rounding step of the simulation: the exact product that
/// feeds it is formed by the caller, so the result is the exact rational
/// rounded once, just as a statement rounds once per step.
pub(crate) fn div_nearest_i128(a: i128, b: i128) -> (r: i128)
    requires
        0 < b <= 10_000_000_000_000_000_000_000_000_000i128,
        -1_000_000_000_000_000_000_000_000_000_000_000_000i128 <= a
            <= 1_000_000_000_000_000_000_000_000_000_000_000_000i128,
    ensures
        r == div_nearest(a as int, b as int),
{
    if a >= 0 {
        let ua = a as u128;
        let ub = b as u128;
        let q = (2 * ua + ub) / (2 * ub);
        proof {
            lemma_div_nearest_magnitude(a as int, b as int);
        }
        q as i128
    } else {
        let ua = (0 - a) as u128;
        let ub = b as u128;
        let q = (2 * ua + ub) / (2 * ub);
        proof {
            lemma_div_nearest_magnitude(-(a as int), b as int);
        }
        0 - (q as i128)
    }
}

/// Round a money value to whole cents: the nearest multiple of 100 units,
/// ties away from zero.
pub fn round_to_currency(a: i64) -> (r: i64)
    requires
        -MONEY_MAX <= a <= MONEY_MAX,
    ensures
        r == spec_round_to_currency(a as int),
{
    let q = div_nearest_i128(a as i128, 100);
    proof {
        lemma_div_nearest_bounds(a as int, 100);
    }
    (q as i64) * 100
}

/// Round a money value to `places` decimal places (ties away from zero).
/// The grid itself has four decimal places, so `places` beyond four keeps
/// the value as it is; negative `places` behaves like zero.
pub fn round_to_decimals(a: i64, places: i32) -> (r: i64)
    requires
        -MONEY_MAX <= a <= MONEY_MAX,
    ensures
        r == round_to_step(a as int, decimal_step(places as int)),
{
    let step: i64 = if places <= 0 {
        10000
    } else if places == 1 {
        1000
    } else if places == 2 {
        100
    } else if places == 3 {
        10
    } else {
        1
    };
    let q = div_nearest_i128(a as i128, step as i128);
    proof {
        if places <= 0 {
            lemma_div_nearest_bounds(a as int, 10000);
        } else if places == 1 {
            lemma_div_nearest_bounds(a as int, 1000);
        } else if places == 2 {
            lemma_div_nearest_bounds(a as int, 100);
        } else if places == 3 {
            lemma_div_nearest_bounds(a as int, 10);
        } else {
            lemma_div_nearest_bounds(a as int, 1);
        }
    }
    (q as i64) * step
}

} // verus!
