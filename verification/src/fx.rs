//! Fixed-point scalar arithmetic.
//!
//! A scalar is an `i64` counting units of `1 / SCALE`. Products of two
//! scalars are divided by `SCALE` and truncated toward zero; that truncation
//! is modelled exactly by `fx_mul_spec`, so contracts over matrices can state
//! every entry of every result to the unit.

use vstd::prelude::*;

verus! {

/// Number of fixed-point units that represent the real value one.
pub const SCALE: i64 = 1_000_000;

/// Largest magnitude, in units, that an entry of a well-formed matrix
/// may carry (2^53).
pub const UNIT_BOUND: i64 = 0x20_0000_0000_0000;

/// Largest inner dimension a matrix product or reduction accepts; keeps
/// every intermediate sum inside `i128`.
pub const DIM_LIMIT: usize = 100_000;

/// Quotient truncated toward zero (spec `/` alone is Euclidean).
pub open spec fn trunc_div(a: int, d: int) -> int {
    if a >= 0 {
        a / d
    } else {
        -((-a) / d)
    }
}

/// Product of two fixed-point scalars, truncated toward zero.
pub open spec fn fx_mul_spec(a: int, b: int) -> int {
    trunc_div(a * b, SCALE as int)
}

/// Truncating division shrinks magnitudes: |a / d| <= m whenever |a| <= m
/// and d >= 1.
pub proof fn lemma_trunc_div_bound(a: int, d: int, m: int)
    requires
        d >= 1,
        -m <= a <= m,
    ensures
        -m <= trunc_div(a, d) <= m,
        a >= 0 ==> 0 <= trunc_div(a, d) <= a,
        a <= 0 ==> a <= trunc_div(a, d) <= 0,
{
    if a >= 0 {
        vstd::arithmetic::div_mod::lemma_div_nonincreasing(a, d);
        vstd::arithmetic::div_mod::lemma_div_pos_is_pos(a, d);
    } else {
        vstd::arithmetic::div_mod::lemma_div_nonincreasing(-a, d);
        vstd::arithmetic::div_mod::lemma_div_pos_is_pos(-a, d);
    }
}

/// Multiplying by one unit of `SCALE` is the identity.
pub proof fn lemma_fx_mul_one(a: int)
    ensures
        fx_mul_spec(a, SCALE as int) == a,
        fx_mul_spec(SCALE as int, a) == a,
{
    let s = SCALE as int;
    vstd::arithmetic::div_mod::lemma_div_multiples_vanish(a, s);
    vstd::arithmetic::div_mod::lemma_div_multiples_vanish(-a, s);
    assert(a * s == s * a) by (nonlinear_arith);
    assert(-(a * s) == s * -a) by (nonlinear_arith);
}

/// Multiplying by zero gives zero.
pub proof fn lemma_fx_mul_zero(a: int)
    ensures
        fx_mul_spec(a, 0) == 0,
        fx_mul_spec(0, a) == 0,
{
    let s = SCALE as int;
    assert(a * 0 == 0) by (nonlinear_arith);
    assert(0 * a == 0) by (nonlinear_arith);
    assert(trunc_div(0, s) == 0) by {
        vstd::arithmetic::div_mod::lemma_div_of0(s);
    }
}

/// A product with one factor of magnitude at most `SCALE` never grows the
/// other factor.
pub proof fn lemma_fx_mul_small(a: int, b: int, m: int)
    requires
        -m <= a <= m,
        m >= 0,
        -SCALE <= b <= SCALE,
    ensures
        -m <= fx_mul_spec(a, b) <= m,
{
    let s = SCALE as int;
    assert(-(m * s) <= a * b <= m * s) by (nonlinear_arith)
        requires
            -m <= a <= m,
            m >= 0,
            -s <= b <= s,
    ;
    lemma_trunc_div_bound(a * b, s, m * s);
    if a * b >= 0 {
        vstd::arithmetic::div_mod::lemma_div_is_ordered(a * b, m * s, s);
        vstd::arithmetic::div_mod::lemma_div_multiples_vanish(m, s);
        assert(m * s == s * m) by (nonlinear_arith);
        vstd::arithmetic::div_mod::lemma_div_pos_is_pos(a * b, s);
    } else {
        vstd::arithmetic::div_mod::lemma_div_is_ordered(-(a * b), m * s, s);
        vstd::arithmetic::div_mod::lemma_div_multiples_vanish(m, s);
        assert(m * s == s * m) by (nonlinear_arith);
        vstd::arithmetic::div_mod::lemma_div_pos_is_pos(-(a * b), s);
    }
}

/// Fixed-point product of two scalars, or `None` when the truncated result
/// is not representable.
pub fn fx_mul_checked(a: i64, b: i64) -> (r: Option<i64>)
    requires
        -UNIT_BOUND <= a <= UNIT_BOUND,
        -UNIT_BOUND <= b <= UNIT_BOUND,
    ensures
        match r {
            Some(v) => -UNIT_BOUND <= v <= UNIT_BOUND && v == fx_mul_spec(a as int, b as int),
            None => !(-UNIT_BOUND <= fx_mul_spec(a as int, b as int) <= UNIT_BOUND),
        },
{
    proof {
        assert((a as int) * (b as int) <= UNIT_BOUND * UNIT_BOUND
            && -(UNIT_BOUND * UNIT_BOUND) <= (a as int) * (b as int)) by (nonlinear_arith)
            requires
                -UNIT_BOUND <= a as int <= UNIT_BOUND,
                -UNIT_BOUND <= b as int <= UNIT_BOUND,
        ;
    }
    let p: i128 = (a as i128) * (b as i128);
    let q: i128 = if p >= 0 {
        p / (SCALE as i128)
    } else {
        -((-p) / (SCALE as i128))
    };
    proof {
        assert(q == fx_mul_spec(a as int, b as int));
    }
    if q < -(UNIT_BOUND as i128) || q > UNIT_BOUND as i128 {
        None
    } else {
        Some(q as i64)
    }
}

/// Fixed-point product of two scalars. The caller guarantees that the
/// truncated result is representable.
pub fn fx_mul(a: i64, b: i64) -> (r: i64)
    requires
        -UNIT_BOUND <= a <= UNIT_BOUND,
        -UNIT_BOUND <= b <= UNIT_BOUND,
        -UNIT_BOUND <= fx_mul_spec(a as int, b as int) <= UNIT_BOUND,
    ensures
        r == fx_mul_spec(a as int, b as int),
{
    proof {
        assert((a as int) * (b as int) <= UNIT_BOUND * UNIT_BOUND
            && -(UNIT_BOUND * UNIT_BOUND) <= (a as int) * (b as int)) by (nonlinear_arith)
            requires
                -UNIT_BOUND <= a as int <= UNIT_BOUND,
                -UNIT_BOUND <= b as int <= UNIT_BOUND,
        ;
    }
    let p: i128 = (a as i128) * (b as i128);
    let q: i128 = if p >= 0 {
        p / (SCALE as i128)
    } else {
        -((-p) / (SCALE as i128))
    };
    proof {
        assert(q == fx_mul_spec(a as int, b as int));
    }
    q as i64
}

} // verus!
