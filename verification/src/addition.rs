//! Correctly rounded addition and subtraction of singles.
//!
//! The sum of two finite singles is the exact sum of their values, rounded
//! to the nearest single with ties to even; it overflows to infinity where
//! the rounded magnitude reaches 2^128.  An exact sum of zero is `+0`,
//! except that `-0 + -0` is `-0`.
use crate::rounding::{
    lemma_bits_of_scaled,
    lemma_nearest_of_representable,
    lemma_overflow_threshold,
    lemma_quantum_in_binade,
    lemma_rounded_value,
    nearest,
    round_to_single,
    rounded,
};
use crate::single::{lemma_magnitude_increases, Single, INFINITY_BITS, NAN_BITS};
use vstd::arithmetic::div_mod::lemma_fundamental_div_mod_converse;
use vstd::arithmetic::power2::{
    lemma2_to64,
    lemma_pow2_adds,
    lemma_pow2_pos,
    lemma_pow2_strictly_increases,
    lemma_pow2_unfold,
    pow2,
};
use vstd::bits::lemma_u64_shl_is_mul;
use vstd::prelude::*;

verus! {

/// The sum of two singles.
#[verifier::opaque]
pub open spec fn sum(a: Single, b: Single) -> Single {
    if a.is_nan() || b.is_nan() {
        Single::nan()
    } else if a.is_infinite() && b.is_infinite() {
        if a.negative() == b.negative() {
            a
        } else {
            Single::nan()
        }
    } else if a.is_infinite() {
        a
    } else if b.is_infinite() {
        b
    } else {
        let s = a.scaled() + b.scaled();
        if s == 0 {
            Single::zero(a.negative() && b.negative())
        } else if s < 0 {
            rounded(true, (-s) as nat)
        } else {
            rounded(false, s as nat)
        }
    }
}

/// The difference of two singles: the sum of the first and the negated
/// second.
pub open spec fn difference(a: Single, b: Single) -> Single {
    sum(a, b.negated())
}

/// A finite single is what its own magnitude rounds to.
pub proof fn lemma_rounded_own_magnitude(x: Single)
    requires
        x.finite(),
    ensures
        nearest(x.magnitude()) == x.magnitude(),
        rounded(x.negative(), x.magnitude()) == x,
{
    lemma2_to64();
    let m = x.significand();
    let e = x.shift();
    assert(m * 1 == m);
    assert(x.magnitude() == m * pow2(e));
    assert(x.magnitude_bits() == e * 0x80_0000 + m);
    lemma_nearest_of_representable(m, e);
    lemma_bits_of_scaled(m, e);
    lemma_overflow_threshold(m, e);
}

/// The sum of two finite singles has the value of their exact sum, rounded
/// to nearest; it is infinite, with the sign of the exact sum, where that
/// reaches 2^128 in magnitude.
pub proof fn lemma_sum_of_finite(a: Single, b: Single)
    requires
        a.finite(),
        b.finite(),
    ensures
        ({
            let s = a.scaled() + b.scaled();
            let t = (if s < 0 { -s } else { s }) as nat;
            let r = sum(a, b);
            &&& !r.is_nan()
            &&& s != 0 ==> r.negative() == (s < 0)
            &&& nearest(t) < pow2(277) ==> r.finite() && r.magnitude() == nearest(t)
            &&& nearest(t) >= pow2(277) ==> r.is_infinite()
        }),
{
    reveal(sum);
    let s = a.scaled() + b.scaled();
    let t = (if s < 0 { -s } else { s }) as nat;
    lemma_rounded_value(s < 0, t);
    if s == 0 {
        lemma_nearest_of_representable(0, 0);
        assert(0 * pow2(0) == 0) by (nonlinear_arith);
        lemma_pow2_pos(277);
    }
}

/// Adding a zero changes nothing, but for the sign of a zero: the sum of
/// two zeros is negative only if both are.
pub proof fn lemma_sum_with_zero(x: Single, zero: Single)
    requires
        !x.is_nan(),
        zero.is_zero(),
    ensures
        !x.is_zero() ==> sum(x, zero) == x,
        x.is_zero() ==> sum(x, zero) == Single::zero(x.negative() && zero.negative()),
{
    reveal(sum);
    if !x.is_zero() {
        lemma_magnitude_increases(0, x.magnitude_bits());
    }
    if x.finite() {
        lemma_rounded_own_magnitude(x);
    }
}

/// An addend below a quarter of the spacing around a normal magnitude is
/// absorbed: sum and difference both round back to that magnitude.
pub proof fn lemma_absorbed(sa: nat, ha: nat, b: nat)
    requires
        0x80_0000 <= sa < 0x100_0000,
        ha >= 2,
        b < pow2((ha - 2) as nat),
    ensures
        nearest(sa * pow2(ha) + b) == sa * pow2(ha),
        nearest((sa * pow2(ha) - b) as nat) == sa * pow2(ha),
{
    lemma2_to64();
    let q = pow2(ha);
    let q2 = pow2((ha - 1) as nat);
    let q4 = pow2((ha - 2) as nat);
    lemma_pow2_unfold(ha);
    lemma_pow2_unfold((ha - 1) as nat);
    lemma_pow2_pos((ha - 2) as nat);
    lemma_pow2_adds(23, ha);
    lemma_pow2_adds(24, ha);
    lemma_pow2_adds(23, (ha - 1) as nat);
    lemma_pow2_adds(24, (ha - 1) as nat);
    let a = sa * q;
    assert(0x80_0000 * q <= a < 0x100_0000 * q && a + q <= 0x100_0000 * q) by (nonlinear_arith)
        requires
            a == sa * q,
            0x80_0000 <= sa < 0x100_0000,
            q > 0,
    ;
    if b == 0 {
        lemma_nearest_of_representable(sa, ha);
    } else {
        let up = a + b;
        lemma_quantum_in_binade(up, ha);
        lemma_fundamental_div_mod_converse(up as int, q as int, sa as int, b as int);
        if sa > 0x80_0000 {
            let down = (a - b) as nat;
            assert(down == (sa - 1) * q + (q - b) && 0x80_0000 * q <= (sa - 1) * q)
                by (nonlinear_arith)
                requires
                    down == sa * q - b,
                    sa > 0x80_0000,
                    q > 0,
            ;
            lemma_quantum_in_binade(down, ha);
            lemma_fundamental_div_mod_converse(
                down as int,
                q as int,
                (sa - 1) as int,
                (q - b) as int,
            );
            assert(((sa - 1) + 1) * q == a);
        } else {
            let down = (a - b) as nat;
            assert(down == 0xFF_FFFF * q2 + (q2 - b) && 0x80_0000 * q2 <= 0xFF_FFFF * q2
                && 0x100_0000 * q2 == a) by (nonlinear_arith)
                requires
                    a == sa * q,
                    down == a - b,
                    sa == 0x80_0000,
                    q == 2 * q2,
                    q2 > 0,
            ;
            assert(24 + (ha - 1) as nat == 23 + ha);
            lemma_quantum_in_binade(down, (ha - 1) as nat);
            lemma_fundamental_div_mod_converse(
                down as int,
                q2 as int,
                0xFF_FFFF,
                (q2 - b) as int,
            );
            assert((0xFF_FFFF + 1) * q2 == a);
        }
    }
}

/// Adds two finite singles of which the first has the larger shift.
fn add_aligned(big: Single, small: Single) -> (r: Single)
    requires
        big.finite(),
        small.finite(),
        big.shift() >= small.shift(),
    ensures
        r == sum(big, small),
{
    reveal(sum);
    let (sa, ha) = big.parts();
    let (sb, hb) = small.parts();
    let na = big.is_sign_negative();
    let nb = small.is_sign_negative();
    let d: u32 = ha - hb;
    proof {
        lemma_rounded_own_magnitude(big);
    }
    if d > 25 {
        proof {
            lemma2_to64();
            lemma_pow2_adds(24, hb as nat);
            lemma_pow2_pos(hb as nat);
            if ha - 2 > 24 + hb {
                lemma_pow2_strictly_increases((24 + hb) as nat, (ha - 2) as nat);
            }
            let b = small.magnitude();
            assert(b < 0x100_0000 * pow2(hb as nat)) by (nonlinear_arith)
                requires
                    b == sb * pow2(hb as nat),
                    sb < 0x100_0000,
                    pow2(hb as nat) > 0,
            ;
            lemma_absorbed(sa as nat, ha as nat, b);
            lemma_pow2_pos(ha as nat);
            assert(big.magnitude() >= 0x80_0000 * pow2(ha as nat)) by (nonlinear_arith)
                requires
                    big.magnitude() == sa * pow2(ha as nat),
                    sa >= 0x80_0000,
                    pow2(ha as nat) > 0,
            ;
            lemma_pow2_adds(23, ha as nat);
            lemma_pow2_strictly_increases((24 + hb) as nat, (23 + ha) as nat);
        }
        return big;
    }
    proof {
        lemma2_to64();
        if d < 25 {
            lemma_pow2_strictly_increases(d as nat, 25);
        }
        assert(sa * pow2(d as nat) < 0x100_0000 * 0x200_0000) by (nonlinear_arith)
            requires
                sa < 0x100_0000,
                pow2(d as nat) <= 0x200_0000,
        ;
        lemma_u64_shl_is_mul(sa, d as u64);
        lemma_pow2_adds(d as nat, hb as nat);
        assert((sa * pow2(d as nat)) * pow2(hb as nat) == sa * (pow2(d as nat) * pow2(hb as nat)))
            by (nonlinear_arith);
    }
    let x: u64 = sa << (d as u64);
    let ghost unit = pow2(hb as nat);
    assert(big.magnitude() == x * unit);
    assert(small.magnitude() == sb * unit);
    proof {
        lemma_pow2_pos(hb as nat);
    }
    if na == nb {
        let n: u64 = x + sb;
        assert(n * unit == x * unit + sb * unit) by (nonlinear_arith)
            requires
                n == x + sb,
        ;
        if n == 0 {
            big
        } else {
            assert(n * unit > 0) by (nonlinear_arith)
                requires
                    n > 0,
                    unit > 0,
            ;
            round_to_single(na, n, hb)
        }
    } else if x > sb {
        let n: u64 = x - sb;
        assert(n * unit == x * unit - sb * unit && n * unit > 0) by (nonlinear_arith)
            requires
                n == x - sb,
                n > 0,
                unit > 0,
        ;
        round_to_single(na, n, hb)
    } else if x < sb {
        let n: u64 = sb - x;
        assert(n * unit == sb * unit - x * unit && n * unit > 0) by (nonlinear_arith)
            requires
                n == sb - x,
                n > 0,
                unit > 0,
        ;
        round_to_single(nb, n, hb)
    } else {
        Single { bits: 0 }
    }
}

impl Single {
    /// `self + rhs`.
    pub open spec fn plus(self, rhs: Single) -> Single {
        sum(self, rhs)
    }

    /// `self - rhs`.
    pub open spec fn minus(self, rhs: Single) -> Single {
        difference(self, rhs)
    }

    /// The sum of two singles, correctly rounded.
    pub fn add(self, rhs: Single) -> (r: Single)
        ensures
            r == sum(self, rhs),
    {
        reveal(sum);
        let ma: u32 = self.abs_bits();
        let mb: u32 = rhs.abs_bits();
        if ma > INFINITY_BITS || mb > INFINITY_BITS {
            return Single { bits: NAN_BITS };
        }
        if ma == INFINITY_BITS {
            if mb == INFINITY_BITS && self.is_sign_negative() != rhs.is_sign_negative() {
                return Single { bits: NAN_BITS };
            }
            return self;
        }
        if mb == INFINITY_BITS {
            return rhs;
        }
        if ma >= mb {
            add_aligned(self, rhs)
        } else {
            add_aligned(rhs, self)
        }
    }

    /// The difference of two singles, correctly rounded.
    pub fn sub(self, rhs: Single) -> (r: Single)
        ensures
            r == difference(self, rhs),
    {
        self.add(rhs.neg())
    }
}

} // verus!
