//! Bounds on the results of arithmetic: what is small enough stays finite.
//!
//! A single is *within* `e` if it is finite and its scaled magnitude is at
//! most `2^e`, that is its magnitude at most `2^(e - 149)`.  One is within
//! 149; every finite single is within 277.
use crate::addition::{difference, lemma_sum_of_finite, sum};
use crate::multiplication::{lemma_product_of_finite, product};
use crate::root::{
    lemma_floor_sqrt_exists,
    lemma_floor_sqrt_unique,
    lemma_root_of_positive,
    nearest_root,
    root,
};
use crate::rounding::{lemma_binade, lemma_nearest_at_unit, nearest_at, round_half_even};
use crate::single::Single;
use vstd::arithmetic::div_mod::{
    lemma_div_is_ordered,
    lemma_fundamental_div_mod,
    lemma_fundamental_div_mod_converse,
};
use vstd::arithmetic::power2::{
    lemma_pow2_adds,
    lemma_pow2_pos,
    lemma_pow2_strictly_increases,
    lemma_pow2_unfold,
    pow2,
};
use vstd::prelude::*;

verus! {

/// Whether `x` is finite and at most `2^(e - 149)` in magnitude.
pub open spec fn within(x: Single, e: nat) -> bool {
    x.finite() && x.magnitude() <= pow2(e)
}

/// Rounding does not pass a power of two: what is at most `2^b` before, is
/// so after.
pub proof fn lemma_nearest_at_below_power(t: nat, j: nat, b: nat)
    requires
        t <= pow2(b + j),
    ensures
        nearest_at(t, j) <= pow2(b),
{
    let k = lemma_binade(t);
    let g = if k < j { j } else { k };
    if k < j {
        lemma_pow2_strictly_increases(k, j);
    } else if j < k {
        lemma_pow2_strictly_increases(j, k);
    }
    if k > b + j {
        lemma_pow2_strictly_increases(b + j, 23 + k);
    }
    assert(g <= b + j);
    let q = pow2(g);
    let pj = pow2(j);
    let top = pow2(b + j);
    let c = pow2((b + j - g) as nat);
    lemma_pow2_pos(g);
    lemma_pow2_pos(j);
    lemma_pow2_adds((b + j - g) as nat, g);
    lemma_pow2_adds(b, j);
    assert((b + j - g) as nat + g == b + j);
    let f = t / q;
    let r = t % q;
    lemma_fundamental_div_mod(t as int, q as int);
    let w = round_half_even(t, q);
    assert(w <= top) by (nonlinear_arith)
        requires
            w == f * q || (w == (f + 1) * q && r > 0),
            t == q * f + r,
            0 <= r < q,
            t <= top,
            top == c * q,
    ;
    lemma_div_is_ordered(w as int, top as int, pj as int);
    lemma_fundamental_div_mod_converse(top as int, pj as int, pow2(b) as int, 0);
}

/// The sum of two singles within `e` is within `e + 1`.
pub proof fn lemma_sum_within(a: Single, b: Single, e: nat)
    requires
        within(a, e),
        within(b, e),
        e < 276,
    ensures
        within(sum(a, b), e + 1),
{
    let s = a.scaled() + b.scaled();
    let t = (if s < 0 { -s } else { s }) as nat;
    lemma_pow2_unfold(e + 1);
    lemma_nearest_at_below_power(t, 0, e + 1);
    lemma_nearest_at_unit(t);
    if e + 1 < 276 {
        lemma_pow2_strictly_increases(e + 1, 277);
    } else {
        lemma_pow2_strictly_increases(276, 277);
    }
    lemma_sum_of_finite(a, b);
}

/// The difference of two singles within `e` is within `e + 1`.
pub proof fn lemma_difference_within(a: Single, b: Single, e: nat)
    requires
        within(a, e),
        within(b, e),
        e < 276,
    ensures
        within(difference(a, b), e + 1),
{
    lemma_sum_within(a, b.negated(), e);
}

/// The product of a single within `ea` and one within `eb` is within
/// `ea + eb - 149`.
pub proof fn lemma_product_within(a: Single, b: Single, ea: nat, eb: nat)
    requires
        within(a, ea),
        within(b, eb),
        149 <= ea + eb <= 149 + 276,
    ensures
        within(product(a, b), (ea + eb - 149) as nat),
{
    let t = a.magnitude() * b.magnitude();
    let e = (ea + eb - 149) as nat;
    lemma_pow2_adds(ea, eb);
    assert(t <= pow2(ea) * pow2(eb)) by (nonlinear_arith)
        requires
            t == a.magnitude() * b.magnitude(),
            a.magnitude() <= pow2(ea),
            b.magnitude() <= pow2(eb),
    ;
    assert(e + 149 == ea + eb);
    lemma_nearest_at_below_power(t, 149, e);
    lemma_pow2_strictly_increases(e, 277);
    lemma_product_of_finite(a, b);
}

/// What is within `e` is within every larger bound.
pub proof fn lemma_within_larger(x: Single, e: nat, larger: nat)
    requires
        within(x, e),
        e <= larger,
    ensures
        within(x, larger),
{
    if e < larger {
        lemma_pow2_strictly_increases(e, larger);
    }
}

/// The negation of a single within `e` is within `e`.
pub proof fn lemma_negated_within(x: Single, e: nat)
    requires
        within(x, e),
    ensures
        within(x.negated(), e),
{
}

/// The sum of two finite singles with clear sign bits has a clear sign
/// bit.
pub proof fn lemma_sum_of_non_negative(a: Single, b: Single)
    requires
        a.finite(),
        b.finite(),
        !a.negative(),
        !b.negative(),
    ensures
        !sum(a, b).negative(),
{
    reveal(sum);
    lemma_sum_of_finite(a, b);
}

/// The square root of a single within `e` with a clear sign bit is within
/// half of `e + 149`, rounded up, and has a clear sign bit.
pub proof fn lemma_root_within(x: Single, e: nat, b: nat)
    requires
        within(x, e),
        !x.negative(),
        e + 149 <= 2 * b,
        b <= 276,
    ensures
        within(root(x), b),
        !root(x).negative(),
{
    reveal(root);
    if !x.is_zero() {
        let t = x.magnitude() * pow2(149);
        let top = pow2(b);
        lemma_pow2_pos(149);
        lemma_pow2_pos(b);
        lemma_pow2_adds(e, 149);
        lemma_pow2_adds(b, b);
        if e + 149 < 2 * b {
            lemma_pow2_strictly_increases(e + 149, 2 * b);
        }
        assert(t <= top * top) by (nonlinear_arith)
            requires
                t == x.magnitude() * pow2(149),
                x.magnitude() <= pow2(e),
                pow2(e) * pow2(149) <= top * top,
                pow2(149) > 0,
        ;
        let whole = lemma_floor_sqrt_exists(t);
        lemma_floor_sqrt_unique(t, whole);
        if whole > top {
            assert(whole * whole > top * top) by (nonlinear_arith)
                requires
                    whole > top,
                    top > 0,
            ;
        }
        let k = lemma_binade(whole);
        if k > b {
            lemma_pow2_strictly_increases(b, 23 + k);
        }
        let q = pow2(k);
        let c = pow2((b - k) as nat);
        lemma_pow2_pos(k);
        lemma_pow2_adds((b - k) as nat, k);
        assert((b - k) as nat + k == b);
        let f = whole / q;
        lemma_fundamental_div_mod(whole as int, q as int);
        let v = nearest_root(t);
        if whole < top {
            assert((f + 1) * q <= top) by (nonlinear_arith)
                requires
                    whole == q * f + whole % q,
                    whole % q >= 0,
                    whole < top,
                    top == c * q,
                    q > 0,
            ;
            assert(f * q <= top) by (nonlinear_arith)
                requires
                    (f + 1) * q <= top,
                    q > 0,
            ;
        } else {
            lemma_fundamental_div_mod_converse(whole as int, q as int, c as int, 0);
            assert(4 * t < ((2 * f + 1) * q) * ((2 * f + 1) * q)) by (nonlinear_arith)
                requires
                    t <= top * top,
                    top == f * q,
                    q > 0,
            ;
        }
        assert(v <= top);
        lemma_root_of_positive(x);
    }
}

} // verus!
