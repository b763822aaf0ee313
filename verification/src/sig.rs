//! The logistic (sigmoid) scalar function in fixed point.
//!
//! `sigmoid_spec` models `1 / (1 + e^(-z))`: the exponential is
//! approximated by an integer power of `e` combined with a truncated
//! Taylor series for the fractional part, saturating once `e^(-u)` falls
//! below one unit. The model pins every truncation, so the executable
//! code matches it exactly; its range, and its exact value at zero, are
//! proved below.

use vstd::prelude::*;

use crate::fx::{SCALE, UNIT_BOUND};

verus! {

/// The constant `e` in units, rounded to the nearest unit.
pub const E_UNITS: i64 = 2_718_282;

/// Saturation threshold, in units: beyond `14.0` the value `e^(-u)` is
/// smaller than one unit.
pub const SIG_SAT: i64 = 14_000_000;

/// `e^k` in units: `SCALE` multiplied by `E_UNITS` `k` times, with a
/// fixed-point truncation at each step.
pub open spec fn epow_spec(k: nat) -> int
    decreases k,
{
    if k == 0 {
        SCALE as int
    } else {
        (epow_spec((k - 1) as nat) * (E_UNITS as int)) / (SCALE as int)
    }
}

/// A coarse cap on `epow_spec`: it at most triples per step.
pub open spec fn epow_cap(k: nat) -> int
    decreases k,
{
    if k == 0 {
        SCALE as int
    } else {
        3 * epow_cap((k - 1) as nat)
    }
}

proof fn lemma_epow_cap_pos(k: nat)
    ensures
        epow_cap(k) >= SCALE as int,
    decreases k,
{
    if k > 0 {
        lemma_epow_cap_pos((k - 1) as nat);
    }
}

proof fn lemma_epow_cap_mono(j: nat, k: nat)
    requires
        j <= k,
    ensures
        epow_cap(j) <= epow_cap(k),
    decreases k,
{
    if j < k {
        lemma_epow_cap_mono(j, (k - 1) as nat);
        lemma_epow_cap_pos((k - 1) as nat);
    }
}

proof fn lemma_epow_le_cap(k: nat)
    ensures
        SCALE as int <= epow_spec(k) <= epow_cap(k),
    decreases k,
{
    if k > 0 {
        lemma_epow_le_cap((k - 1) as nat);
        let p = epow_spec((k - 1) as nat);
        let s = SCALE as int;
        let e = E_UNITS as int;
        assert(s * e <= p * e && p * e <= (3 * epow_cap((k - 1) as nat)) * s) by (nonlinear_arith)
            requires
                s <= p <= epow_cap((k - 1) as nat),
                s == SCALE as int,
                e == E_UNITS as int,
        ;
        vstd::arithmetic::div_mod::lemma_div_is_ordered(s * e, p * e, s);
        vstd::arithmetic::div_mod::lemma_div_is_ordered(p * e, (3 * epow_cap((k - 1) as nat)) * s, s);
        vstd::arithmetic::div_mod::lemma_div_multiples_vanish(e, s);
        assert(s * e == e * s) by (nonlinear_arith);
        vstd::arithmetic::div_mod::lemma_div_by_multiple(3 * epow_cap((k - 1) as nat), s);
    }
}

/// Bounds for every power the saturating exponential can use.
pub proof fn lemma_epow_max(k: nat)
    requires
        k <= 13,
    ensures
        SCALE as int <= epow_spec(k) <= 1_594_323 * (SCALE as int),
{
    lemma_epow_le_cap(k);
    lemma_epow_cap_mono(k, 13);
    assert(epow_cap(13) == 1_594_323 * (SCALE as int)) by {
        reveal_with_fuel(epow_cap, 14);
    }
}

/// Truncated Taylor series of `e^f` for a fractional argument, in units:
/// `1 + f + f^2/2 + f^3/6 + f^4/24`.
pub open spec fn taylor_spec(f: int) -> int {
    let s = SCALE as int;
    let t1 = f;
    let t2 = (t1 * f) / (2 * s);
    let t3 = (t2 * f) / (3 * s);
    let t4 = (t3 * f) / (4 * s);
    s + t1 + t2 + t3 + t4
}

/// The Taylor series stays between one and five, and is exactly one at
/// zero.
pub proof fn lemma_taylor_bounds(f: int)
    requires
        0 <= f < SCALE as int,
    ensures
        SCALE as int <= taylor_spec(f) <= 5 * (SCALE as int),
        f == 0 ==> taylor_spec(f) == SCALE as int,
        0 <= (f * f) / (2 * (SCALE as int)) <= SCALE as int,
        0 <= (((f * f) / (2 * (SCALE as int))) * f) / (3 * (SCALE as int)) <= SCALE as int,
{
    let s = SCALE as int;
    let t1 = f;
    let t2 = (t1 * f) / (2 * s);
    let t3 = (t2 * f) / (3 * s);
    let t4 = (t3 * f) / (4 * s);
    assert(0 <= t1 * f <= s * s) by (nonlinear_arith)
        requires
            0 <= t1 < s,
            0 <= f < s,
    ;
    vstd::arithmetic::div_mod::lemma_div_pos_is_pos(t1 * f, 2 * s);
    vstd::arithmetic::div_mod::lemma_div_is_ordered(t1 * f, s * s, 2 * s);
    assert((s * s) / (2 * s) == s / 2) by {
        vstd::arithmetic::div_mod::lemma_div_denominator(s * s, s, 2);
        vstd::arithmetic::div_mod::lemma_div_by_multiple(s, s);
    }
    assert(0 <= t2 <= s);
    assert(0 <= t2 * f <= s * s) by (nonlinear_arith)
        requires
            0 <= t2 <= s,
            0 <= f < s,
    ;
    vstd::arithmetic::div_mod::lemma_div_pos_is_pos(t2 * f, 3 * s);
    vstd::arithmetic::div_mod::lemma_div_is_ordered(t2 * f, s * s, 3 * s);
    assert((s * s) / (3 * s) <= s) by {
        vstd::arithmetic::div_mod::lemma_div_denominator(s * s, s, 3);
        vstd::arithmetic::div_mod::lemma_div_by_multiple(s, s);
        vstd::arithmetic::div_mod::lemma_div_is_ordered_by_denominator(s, 1, 3);
        vstd::arithmetic::div_mod::lemma_div_nonincreasing(s, 3);
        vstd::arithmetic::div_mod::lemma_div_pos_is_pos(s, 3);
    }
    assert(0 <= t3 <= s);
    assert(0 <= t3 * f <= s * s) by (nonlinear_arith)
        requires
            0 <= t3 <= s,
            0 <= f < s,
    ;
    vstd::arithmetic::div_mod::lemma_div_pos_is_pos(t3 * f, 4 * s);
    vstd::arithmetic::div_mod::lemma_div_is_ordered(t3 * f, s * s, 4 * s);
    assert((s * s) / (4 * s) <= s) by {
        vstd::arithmetic::div_mod::lemma_div_denominator(s * s, s, 4);
        vstd::arithmetic::div_mod::lemma_div_by_multiple(s, s);
        vstd::arithmetic::div_mod::lemma_div_nonincreasing(s, 4);
        vstd::arithmetic::div_mod::lemma_div_pos_is_pos(s, 4);
    }
    assert(0 <= t4 <= s);
    if f == 0 {
        vstd::arithmetic::div_mod::lemma_div_of0(2 * s);
        vstd::arithmetic::div_mod::lemma_div_of0(3 * s);
        vstd::arithmetic::div_mod::lemma_div_of0(4 * s);
        assert(t1 == 0 && t1 * f == 0) by (nonlinear_arith)
            requires
                f == 0,
                t1 == f,
        ;
    }
}

/// `e^u` in units for `0 <= u < 14`: the integer-power part times the
/// Taylor part, truncated once more.
pub open spec fn exp_pos_spec(u: int) -> int {
    let s = SCALE as int;
    let k = u / s;
    let f = u % s;
    (epow_spec(k as nat) * taylor_spec(f)) / s
}

/// The positive exponential stays between one and eight million, and is
/// exactly one at zero.
pub proof fn lemma_exp_pos_bounds(u: int)
    requires
        0 <= u < SIG_SAT as int,
    ensures
        SCALE as int <= exp_pos_spec(u) <= 8_000_000 * (SCALE as int),
        u == 0 ==> exp_pos_spec(u) == SCALE as int,
{
    let s = SCALE as int;
    let k = u / s;
    let f = u % s;
    vstd::arithmetic::div_mod::lemma_div_pos_is_pos(u, s);
    vstd::arithmetic::div_mod::lemma_div_is_ordered(u, SIG_SAT as int - 1, s);
    assert((SIG_SAT as int - 1) / s == 13);
    vstd::arithmetic::div_mod::lemma_mod_division_less_than_divisor(u, s);
    lemma_epow_max(k as nat);
    lemma_taylor_bounds(f);
    let a = epow_spec(k as nat);
    let b = taylor_spec(f);
    assert(s * s <= a * b && a * b <= (1_594_323 * s) * (5 * s) && (1_594_323 * s) * (5 * s)
        == (7_971_615 * s) * s) by (nonlinear_arith)
        requires
            s <= a <= 1_594_323 * s,
            s <= b <= 5 * s,
            s == SCALE as int,
    ;
    vstd::arithmetic::div_mod::lemma_div_is_ordered(s * s, a * b, s);
    vstd::arithmetic::div_mod::lemma_div_is_ordered(a * b, (7_971_615 * s) * s, s);
    vstd::arithmetic::div_mod::lemma_div_by_multiple(7_971_615 * s, s);
    vstd::arithmetic::div_mod::lemma_div_multiples_vanish(s, s);
    if u == 0 {
        vstd::arithmetic::div_mod::lemma_basic_div(u, s);
        vstd::arithmetic::div_mod::lemma_small_mod(0, s as nat);
        assert(a == s && b == s);
    }
}

/// `e^(-u)` in units for `u >= 0`: the reciprocal of the positive
/// exponential, never below one unit, saturating at the threshold.
pub open spec fn exp_neg_spec(u: int) -> int {
    let s = SCALE as int;
    if u >= SIG_SAT as int {
        1
    } else {
        let r = (s * s) / exp_pos_spec(u);
        if r < 1 {
            1
        } else {
            r
        }
    }
}

/// The negative exponential stays between one unit and one, and is exactly
/// one at zero.
pub proof fn lemma_exp_neg_bounds(u: int)
    requires
        u >= 0,
    ensures
        1 <= exp_neg_spec(u) <= SCALE as int,
        u == 0 ==> exp_neg_spec(u) == SCALE as int,
{
    let s = SCALE as int;
    if u < SIG_SAT as int {
        lemma_exp_pos_bounds(u);
        let d = exp_pos_spec(u);
        vstd::arithmetic::div_mod::lemma_div_is_ordered_by_denominator(s * s, s, d);
        vstd::arithmetic::div_mod::lemma_div_multiples_vanish(s, s);
        vstd::arithmetic::div_mod::lemma_div_pos_is_pos(s * s, d);
        if u == 0 {
            assert((s * s) / d == s);
        }
    }
}

/// The sigmoid of `z` in units: `1 / (1 + e^(-z))`, computed on the
/// magnitude of `z` and mirrored for negative arguments.
pub open spec fn sigmoid_spec(z: int) -> int {
    let s = SCALE as int;
    if z >= 0 {
        (s * s) / (s + exp_neg_spec(z))
    } else {
        s - (s * s) / (s + exp_neg_spec(-z))
    }
}

/// The sigmoid's output lies strictly between zero and one, and is exactly
/// one half at zero.
pub proof fn lemma_sigmoid_range(z: int)
    ensures
        1 <= sigmoid_spec(z) <= SCALE as int - 1,
        z == 0 ==> sigmoid_spec(z) == (SCALE as int) / 2,
{
    let s = SCALE as int;
    let u = if z >= 0 {
        z
    } else {
        -z
    };
    lemma_exp_neg_bounds(u);
    let t = exp_neg_spec(u);
    let p = (s * s) / (s + t);
    vstd::arithmetic::div_mod::lemma_div_is_ordered_by_denominator(s * s, s + 1, s + t);
    vstd::arithmetic::div_mod::lemma_div_is_ordered_by_denominator(s * s, s + t, 2 * s);
    assert((s * s) / (s + 1) == s - 1) by {
        vstd::arithmetic::div_mod::lemma_fundamental_div_mod_converse(
            s * s,
            s + 1,
            s - 1,
            1,
        );
        assert((s + 1) * (s - 1) + 1 == s * s) by (nonlinear_arith);
    }
    assert((s * s) / (2 * s) == s / 2) by {
        vstd::arithmetic::div_mod::lemma_div_denominator(s * s, s, 2);
        vstd::arithmetic::div_mod::lemma_div_by_multiple(s, s);
    }
    assert(s / 2 <= p <= s - 1);
    if z == 0 {
        assert(t == s);
        assert((s * s) / (s + t) == s / 2) by {
            vstd::arithmetic::div_mod::lemma_div_denominator(s * s, s, 2);
            vstd::arithmetic::div_mod::lemma_div_by_multiple(s, s);
        }
    }
}

/// `e^k` in units, by repeated truncated multiplication.
fn epow_exec(k: usize) -> (r: i64)
    requires
        k <= 13,
    ensures
        r as int == epow_spec(k as nat),
        SCALE as int <= r as int <= 1_594_323 * (SCALE as int),
{
    let mut acc: i64 = SCALE;
    let mut i: usize = 0;
    proof {
        lemma_epow_max(0);
    }
    while i < k
        invariant
            i <= k,
            k <= 13,
            acc as int == epow_spec(i as nat),
            SCALE as int <= acc as int <= 1_594_323 * (SCALE as int),
        decreases k - i,
    {
        proof {
            lemma_epow_max((i + 1) as nat);
        }
        let p: i128 = (acc as i128) * (E_UNITS as i128);
        acc = (p / (SCALE as i128)) as i64;
        i += 1;
    }
    acc
}

/// The truncated Taylor series, mirrored from its model.
fn taylor_exec(f: i64) -> (r: i64)
    requires
        0 <= f < SCALE,
    ensures
        r as int == taylor_spec(f as int),
        SCALE as int <= r as int <= 5 * (SCALE as int),
{
    proof {
        lemma_taylor_bounds(f as int);
    }
    let t1: i64 = f;
    proof {
        assert(0 <= (t1 as int) * (f as int) < (SCALE as int) * (SCALE as int))
            by (nonlinear_arith)
            requires
                0 <= (t1 as int) && (t1 as int) < (SCALE as int),
                0 <= (f as int) && (f as int) < (SCALE as int),
        ;
    }
    let t2: i64 = (t1 * f) / (2 * SCALE);
    proof {
        assert(t2 as int == ((f as int) * (f as int)) / (2 * (SCALE as int)));
        assert(0 <= (t2 as int) * (f as int) <= (SCALE as int) * (SCALE as int))
            by (nonlinear_arith)
            requires
                0 <= (t2 as int) && (t2 as int) <= (SCALE as int),
                0 <= (f as int) && (f as int) < (SCALE as int),
        ;
    }
    let t3: i64 = (t2 * f) / (3 * SCALE);
    proof {
        assert(t3 as int == (((f as int) * (f as int)) / (2 * (SCALE as int)) * (f as int)) / (3
            * (SCALE as int)));
        assert(0 <= (t3 as int) * (f as int) <= (SCALE as int) * (SCALE as int))
            by (nonlinear_arith)
            requires
                0 <= (t3 as int) && (t3 as int) <= (SCALE as int),
                0 <= (f as int) && (f as int) < (SCALE as int),
        ;
        vstd::arithmetic::div_mod::lemma_div_pos_is_pos((t3 as int) * (f as int), 4 * (SCALE as int));
        vstd::arithmetic::div_mod::lemma_div_is_ordered(
            (t3 as int) * (f as int),
            (SCALE as int) * (SCALE as int),
            4 * (SCALE as int),
        );
        vstd::arithmetic::div_mod::lemma_div_denominator((SCALE as int) * (SCALE as int), SCALE as int, 4);
        vstd::arithmetic::div_mod::lemma_div_by_multiple(SCALE as int, SCALE as int);
        vstd::arithmetic::div_mod::lemma_div_nonincreasing(SCALE as int, 4);
        vstd::arithmetic::div_mod::lemma_div_pos_is_pos(SCALE as int, 4);
    }
    let t4: i64 = (t3 * f) / (4 * SCALE);
    SCALE + t1 + t2 + t3 + t4
}

/// The saturating negative exponential, mirrored from its model.
fn exp_neg_exec(u: i64) -> (r: i64)
    requires
        u >= 0,
    ensures
        r as int == exp_neg_spec(u as int),
        1 <= r <= SCALE,
{
    proof {
        lemma_exp_neg_bounds(u as int);
    }
    if u >= SIG_SAT {
        return 1;
    }
    proof {
        lemma_exp_pos_bounds(u as int);
        vstd::arithmetic::div_mod::lemma_div_pos_is_pos(u as int, SCALE as int);
        vstd::arithmetic::div_mod::lemma_div_is_ordered(u as int, SIG_SAT as int - 1, SCALE as int);
        assert((SIG_SAT as int - 1) / (SCALE as int) == 13);
        vstd::arithmetic::div_mod::lemma_mod_division_less_than_divisor(u as int, SCALE as int);
    }
    let k: usize = (u / SCALE) as usize;
    let f: i64 = u % SCALE;
    let a = epow_exec(k);
    let t = taylor_exec(f);
    let d: i128 = ((a as i128) * (t as i128)) / (SCALE as i128);
    proof {
        assert(d == exp_pos_spec(u as int));
    }
    let r: i128 = ((SCALE as i128) * (SCALE as i128)) / d;
    if r < 1 {
        1
    } else {
        r as i64
    }
}

/// The sigmoid, mirrored from its model: strictly inside `(0, 1)`, exactly
/// one half at zero.
pub fn sigmoid_exec(z: i64) -> (r: i64)
    requires
        -UNIT_BOUND <= z <= UNIT_BOUND,
    ensures
        r as int == sigmoid_spec(z as int),
        1 <= r <= SCALE - 1,
{
    proof {
        lemma_sigmoid_range(z as int);
    }
    let u: i64 = if z >= 0 {
        z
    } else {
        -z
    };
    let t = exp_neg_exec(u);
    let p: i128 = ((SCALE as i128) * (SCALE as i128)) / ((SCALE as i128) + (t as i128));
    proof {
        lemma_exp_neg_bounds(u as int);
        vstd::arithmetic::div_mod::lemma_div_is_ordered_by_denominator(
            (SCALE as int) * (SCALE as int),
            SCALE as int + 1,
            SCALE as int + t as int,
        );
        vstd::arithmetic::div_mod::lemma_div_pos_is_pos(
            (SCALE as int) * (SCALE as int),
            SCALE as int + t as int,
        );
        assert(((SCALE as int) * (SCALE as int)) / (SCALE as int + 1) == SCALE as int - 1) by {
            vstd::arithmetic::div_mod::lemma_fundamental_div_mod_converse(
                (SCALE as int) * (SCALE as int),
                SCALE as int + 1,
                SCALE as int - 1,
                1,
            );
            assert((SCALE as int + 1) * (SCALE as int - 1) + 1 == (SCALE as int) * (
            SCALE as int)) by (nonlinear_arith);
        }
    }
    if z >= 0 {
        p as i64
    } else {
        SCALE - (p as i64)
    }
}

} // verus!
