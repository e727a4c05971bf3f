//! Rounding of exact quotients to integers and clamping to the range of a byte.

use vstd::prelude::*;
use vstd::arithmetic::div_mod::{
    lemma_div_is_ordered,
    lemma_div_multiples_vanish_quotient,
    lemma_fundamental_div_mod,
    lemma_fundamental_div_mod_converse,
    lemma_mod_bound,
};

verus! {

/// The quotient `num / den`, for `den > 0`, rounded to the nearest integer,
/// a quotient half way between two integers going to the one further from zero.
pub open spec fn round_half_away(num: int, den: int) -> int
    recommends
        den > 0,
{
    if num >= 0 {
        (2 * num + den) / (2 * den)
    } else {
        -((2 * (-num) + den) / (2 * den))
    }
}

/// The integer of `0..=255` nearest to `x`.
pub open spec fn clamp_byte(x: int) -> int {
    if x < 0 {
        0
    } else if x > 255 {
        255
    } else {
        x
    }
}

/// The rounded quotient lies within one half of the exact quotient: at most
/// one half above it and less than one half below it.
pub proof fn lemma_round_bounds(num: int, den: int)
    requires
        num >= 0,
        den > 0,
    ensures
        round_half_away(num, den) >= 0,
        (2 * round_half_away(num, den) - 1) * den <= 2 * num,
        2 * num < (2 * round_half_away(num, den) + 1) * den,
{
    let x = 2 * num + den;
    let d = 2 * den;
    let r = x / d;
    lemma_fundamental_div_mod(x, d);
    lemma_mod_bound(x, d);
    assert(d * r == (2 * r) * den) by (nonlinear_arith)
        requires
            d == 2 * den,
    ;
    assert((2 * r - 1) * den == (2 * r) * den - den) by (nonlinear_arith);
    assert((2 * r + 1) * den == (2 * r) * den + den) by (nonlinear_arith);
    assert(r >= 0) by (nonlinear_arith)
        requires
            d * r + x % d == x,
            x >= 0,
            0 <= x % d < d,
    ;
}

/// The one integer within one half of a quotient, as `lemma_round_bounds`
/// measures it, is the rounded quotient.
pub proof fn lemma_round_pins(num: int, den: int, r: int)
    requires
        num >= 0,
        den > 0,
        (2 * r - 1) * den <= 2 * num,
        2 * num < (2 * r + 1) * den,
    ensures
        round_half_away(num, den) == r,
{
    let rem = 2 * num + den - r * (2 * den);
    assert(rem == 2 * num - (2 * r - 1) * den) by (nonlinear_arith)
        requires
            rem == 2 * num + den - r * (2 * den),
    ;
    assert(rem == 2 * num - (2 * r + 1) * den + 2 * den) by (nonlinear_arith)
        requires
            rem == 2 * num + den - r * (2 * den),
    ;
    lemma_fundamental_div_mod_converse(2 * num + den, 2 * den, r, rem);
}

/// Rounding mirrors through zero.
pub proof fn lemma_round_negate(num: int, den: int)
    requires
        den > 0,
    ensures
        round_half_away(-num, den) == -round_half_away(num, den),
{
    if num == 0 {
        lemma_fundamental_div_mod_converse(den, 2 * den, 0, den);
    }
}

/// A larger numerator does not round to a smaller integer.
pub proof fn lemma_round_monotone(num1: int, num2: int, den: int)
    requires
        den > 0,
        num1 <= num2,
    ensures
        round_half_away(num1, den) <= round_half_away(num2, den),
{
    if num1 >= 0 {
        lemma_div_is_ordered(2 * num1 + den, 2 * num2 + den, 2 * den);
    } else if num2 >= 0 {
        lemma_round_bounds(-num1, den);
        lemma_round_bounds(num2, den);
    } else {
        lemma_div_is_ordered(2 * (-num2) + den, 2 * (-num1) + den, 2 * den);
    }
}

/// A common positive factor of numerator and denominator does not change the
/// rounded quotient.
pub proof fn lemma_round_scaling(num: int, den: int, factor: int)
    requires
        den > 0,
        factor > 0,
    ensures
        factor * den > 0,
        round_half_away(factor * num, factor * den) == round_half_away(num, den),
{
    assert(factor * den > 0) by (nonlinear_arith)
        requires
            den > 0,
            factor > 0,
    ;
    if num >= 0 {
        assert(factor * num >= 0) by (nonlinear_arith)
            requires
                num >= 0,
                factor > 0,
        ;
        assert(2 * (factor * num) + factor * den == factor * (2 * num + den))
            by (nonlinear_arith);
        assert(2 * (factor * den) == factor * (2 * den)) by (nonlinear_arith);
        lemma_div_multiples_vanish_quotient(factor, 2 * num + den, 2 * den);
    } else {
        assert(factor * num < 0) by (nonlinear_arith)
            requires
                num < 0,
                factor > 0,
        ;
        assert(2 * (-(factor * num)) + factor * den == factor * (2 * (-num) + den))
            by (nonlinear_arith);
        assert(2 * (factor * den) == factor * (2 * den)) by (nonlinear_arith);
        lemma_div_multiples_vanish_quotient(factor, 2 * (-num) + den, 2 * den);
    }
}

/// A quotient that is an integer rounds to itself.
pub proof fn lemma_round_exact(k: int, den: int)
    requires
        den > 0,
    ensures
        round_half_away(k * den, den) == k,
{
    if k >= 0 {
        assert(k * den >= 0) by (nonlinear_arith)
            requires
                k >= 0,
                den > 0,
        ;
        assert((2 * k - 1) * den <= 2 * (k * den) < (2 * k + 1) * den) by (nonlinear_arith)
            requires
                den > 0,
        ;
        lemma_round_pins(k * den, den, k);
    } else {
        assert((-k) * den >= 0) by (nonlinear_arith)
            requires
                k < 0,
                den > 0,
        ;
        assert((2 * (-k) - 1) * den <= 2 * ((-k) * den) < (2 * (-k) + 1) * den)
            by (nonlinear_arith)
            requires
                den > 0,
        ;
        lemma_round_pins((-k) * den, den, -k);
        assert((-k) * den == -(k * den)) by (nonlinear_arith);
        lemma_round_negate((-k) * den, den);
    }
}

/// A numerator less than half the denominator away from a multiple of it
/// rounds to that multiple.
pub proof fn lemma_round_near(k: int, off: int, den: int)
    requires
        den > 0,
        -den < 2 * off < den,
    ensures
        round_half_away(k * den + off, den) == k,
{
    let num = k * den + off;
    assert((2 * k - 1) * den == 2 * (k * den) - den) by (nonlinear_arith);
    assert((2 * k + 1) * den == 2 * (k * den) + den) by (nonlinear_arith);
    assert((2 * (-k) - 1) * den == -2 * (k * den) - den) by (nonlinear_arith);
    assert((2 * (-k) + 1) * den == -2 * (k * den) + den) by (nonlinear_arith);
    if num >= 0 {
        lemma_round_pins(num, den, k);
    } else {
        lemma_round_pins(-num, den, -k);
        lemma_round_negate(-num, den);
    }
}

/// Rounding and clamping to a byte can be done in either order: to clamp the
/// exact quotient to the range from 0 to 255 and round it then gives the
/// same byte as to round it and clamp the integer.
pub proof fn lemma_clamp_commutes(num: int, den: int)
    requires
        den > 0,
    ensures
        clamp_byte(round_half_away(num, den)) == round_half_away(
            if num < 0 {
                0
            } else if num > 255 * den {
                255 * den
            } else {
                num
            },
            den,
        ),
{
    lemma_round_exact(0, den);
    lemma_round_exact(255, den);
    assert(0 * den == 0);
    if num < 0 {
        lemma_round_monotone(num, 0, den);
    } else if num > 255 * den {
        lemma_round_monotone(255 * den, num, den);
    } else {
        lemma_round_monotone(0, num, den);
        lemma_round_monotone(num, 255 * den, den);
    }
}

} // verus!
