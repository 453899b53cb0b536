//! Correctly rounded division of singles.
//!
//! The quotient of two finite singles, the divisor not zero, is the exact
//! quotient of their values, rounded to the nearest single with ties to
//! even.
use crate::rounding::{
    bits_of_magnitude,
    lemma_binade,
    lemma_bits_of_scaled,
    lemma_encoding_of_magnitude,
    lemma_overflow_threshold,
    lemma_quantum_in_binade,
    quantum,
    round_half_even,
};
use crate::single::{lemma_magnitude_increases, Single, INFINITY_BITS, NAN_BITS, SIGN_BIT};
use vstd::arithmetic::div_mod::{
    lemma_div_denominator,
    lemma_fundamental_div_mod,
    lemma_fundamental_div_mod_converse,
};
use vstd::arithmetic::power2::{
    lemma2_to64,
    lemma2_to64_rest,
    lemma_pow2_adds,
    lemma_pow2_pos,
    lemma_pow2_strictly_increases,
    lemma_pow2_unfold,
    pow2,
};
use vstd::bits::lemma_u64_shl_is_mul;
use vstd::prelude::*;

verus! {

/// The ratio `num / den` rounded to 24 significant bits, or to a whole
/// number where that is coarser.
pub open spec fn nearest_ratio(num: nat, den: nat) -> nat {
    round_half_even(num, den * quantum(num / den)) / den
}

/// The single that results from a sign and the exact magnitude
/// `num / den`, in units of 2^-149.
pub open spec fn rounded_ratio(negative: bool, num: nat, den: nat) -> Single {
    let v = nearest_ratio(num, den);
    let m = if v >= pow2(277) {
        INFINITY_BITS as nat
    } else {
        bits_of_magnitude(v)
    };
    Single { bits: (m + if negative { SIGN_BIT as nat } else { 0 }) as u32 }
}

/// The quotient of two singles.
#[verifier::opaque]
pub open spec fn quotient(a: Single, b: Single) -> Single {
    let negative = a.negative() != b.negative();
    let sign = if negative { SIGN_BIT } else { 0 };
    if a.is_nan() || b.is_nan() {
        Single::nan()
    } else if (a.is_infinite() && b.is_infinite()) || (a.is_zero() && b.is_zero()) {
        Single::nan()
    } else if a.is_infinite() || b.is_zero() {
        Single { bits: (INFINITY_BITS + sign) as u32 }
    } else if b.is_infinite() {
        Single::zero(negative)
    } else {
        rounded_ratio(negative, a.magnitude() * pow2(149), b.magnitude())
    }
}

/// Equal fractions have equal whole parts, and their remainders stand in
/// the same relation to half the denominator.
pub proof fn lemma_equal_fractions(n1: nat, d1: nat, n2: nat, d2: nat)
    requires
        d1 > 0,
        d2 > 0,
        n1 * d2 == n2 * d1,
    ensures
        n1 / d1 == n2 / d2,
        (2 * (n1 % d1) < d1) == (2 * (n2 % d2) < d2),
        (2 * (n1 % d1) == d1) == (2 * (n2 % d2) == d2),
{
    let f = n1 / d1;
    let r = n1 % d1;
    lemma_fundamental_div_mod(n1 as int, d1 as int);
    // The remainder of the second fraction, scaled by d1, is that of the first scaled by d2.
    let r2 = n2 - f * d2;
    assert(r2 * d1 == r * d2) by (nonlinear_arith)
        requires
            n1 == d1 * f + r,
            n1 * d2 == n2 * d1,
            r2 == n2 - f * d2,
    ;
    assert(0 <= r2 < d2) by (nonlinear_arith)
        requires
            r2 * d1 == r * d2,
            0 <= r < d1,
            d1 > 0,
            d2 > 0,
    ;
    lemma_fundamental_div_mod_converse(n2 as int, d2 as int, f as int, r2 as int);
    assert((2 * r < d1) == (2 * r2 < d2) && (2 * r == d1) == (2 * r2 == d2)) by (nonlinear_arith)
        requires
            r2 * d1 == r * d2,
            d1 > 0,
            d2 > 0,
    ;
}

/// The product of four powers of two.
proof fn lemma_pow2_adds4(a: nat, b: nat, c: nat, d: nat)
    ensures
        (pow2(a) * pow2(b)) * (pow2(c) * pow2(d)) == pow2(a + b + c + d),
{
    lemma_pow2_adds(a, b);
    lemma_pow2_adds(c, d);
    lemma_pow2_adds(a + b, c + d);
    assert(a + b + (c + d) == a + b + c + d);
}

/// Two products of a number and two powers of two each, multiplied.
proof fn lemma_scaled_pair(s: nat, a: nat, b: nat, t: nat, c: nat, d: nat)
    ensures
        ((s * pow2(a)) * pow2(b)) * ((t * pow2(c)) * pow2(d)) == (s * t) * pow2(a + b + c + d),
{
    lemma_pow2_adds4(a, b, c, d);
    let x = pow2(a) * pow2(b);
    let y = pow2(c) * pow2(d);
    assert((s * pow2(a)) * pow2(b) == s * x) by (nonlinear_arith)
        requires
            x == pow2(a) * pow2(b),
    ;
    assert((t * pow2(c)) * pow2(d) == t * y) by (nonlinear_arith)
        requires
            y == pow2(c) * pow2(d),
    ;
    assert((s * x) * (t * y) == (s * t) * (x * y)) by (nonlinear_arith);
}

/// What a division at the rounding position says of the exact ratio:
/// if `n1 / d1` is `num / den` scaled down by `2^k`, and its whole part has
/// 24 bits (or fewer with `k` zero), then that whole part, rounded by its
/// remainder, is the rounded ratio in units of `2^k`.
proof fn lemma_ratio_rounding(num: nat, den: nat, k: nat, n1: nat, d1: nat, m: nat)
    requires
        den > 0,
        d1 > 0,
        num * d1 == n1 * (den * pow2(k)),
        n1 / d1 < 0x100_0000,
        k > 0 ==> n1 / d1 >= 0x80_0000,
        m == if 2 * (n1 % d1) < d1 || (2 * (n1 % d1) == d1 && (n1 / d1) % 2 == 0) {
            n1 / d1
        } else {
            n1 / d1 + 1
        },
    ensures
        nearest_ratio(num, den) == m * pow2(k),
{
    lemma2_to64();
    let pk = pow2(k);
    let scaled_den = den * pk;
    let q = n1 / d1;
    lemma_pow2_pos(k);
    assert(scaled_den > 0) by (nonlinear_arith)
        requires
            scaled_den == den * pk,
            den > 0,
            pk > 0,
    ;
    lemma_equal_fractions(num, scaled_den, n1, d1);
    lemma_div_denominator(num as int, den as int, pk as int);
    // The whole quotient lies in the binade of exponent k.
    let whole = num / den;
    assert(whole / pk == q);
    lemma_fundamental_div_mod(whole as int, pk as int);
    lemma_pow2_adds(23, k);
    lemma_pow2_adds(24, k);
    assert(pk * q <= pk * 0xFF_FFFF) by (nonlinear_arith)
        requires
            q <= 0xFF_FFFF,
            pk >= 0,
    ;
    assert(whole < 0x100_0000 * pk);
    if k > 0 {
        assert(whole >= 0x80_0000 * pk) by (nonlinear_arith)
            requires
                whole == pk * q + whole % pk,
                whole % pk >= 0,
                q >= 0x80_0000,
                pk > 0,
        ;
    }
    lemma_quantum_in_binade(whole, k);
    assert(round_half_even(num, scaled_den) == m * scaled_den);
    assert(m * scaled_den == (m * pk) * den + 0) by (nonlinear_arith)
        requires
            scaled_den == den * pk,
    ;
    lemma_fundamental_div_mod_converse((m * scaled_den) as int, den as int, (m * pk) as int, 0);
}

/// What rounding a ratio means: the result times the denominator is at
/// most half a spacing times the denominator away from the numerator;
/// where it is exactly that far, the result is an even multiple of the
/// spacing.
pub proof fn lemma_nearest_ratio_is_nearest(num: nat, den: nat)
    requires
        den > 0,
    ensures
        ({
            let q = quantum(num / den);
            let v = nearest_ratio(num, den);
            &&& q > 0
            &&& v % q == 0
            &&& v / q <= 0x100_0000
            &&& 2 * (v * den - num) <= q * den
            &&& 2 * (num - v * den) <= q * den
            &&& (2 * (v * den - num) == q * den || 2 * (num - v * den) == q * den) ==> (v / q) % 2
                == 0
        }),
{
    lemma2_to64();
    let whole = num / den;
    let k = lemma_binade(whole);
    let q = pow2(k);
    lemma_pow2_pos(k);
    lemma_pow2_adds(24, k);
    let d = den * q;
    assert(d > 0 && d == q * den) by (nonlinear_arith)
        requires
            d == den * q,
            den > 0,
            q > 0,
    ;
    let f = num / d;
    let r = num % d;
    lemma_fundamental_div_mod(num as int, d as int);
    lemma_div_denominator(num as int, den as int, q as int);
    lemma_fundamental_div_mod(whole as int, q as int);
    assert(f < 0x100_0000) by (nonlinear_arith)
        requires
            whole == q * f + whole % q,
            whole % q >= 0,
            whole < 0x100_0000 * q,
            q > 0,
    ;
    let w = round_half_even(num, d);
    let m = if w == f * d { f } else { f + 1 };
    assert(w == (m * q) * den + 0) by (nonlinear_arith)
        requires
            w == m * d,
            d == den * q,
    ;
    lemma_fundamental_div_mod_converse(w as int, den as int, (m * q) as int, 0);
    let v = nearest_ratio(num, den);
    assert(v == m * q + 0);
    lemma_fundamental_div_mod_converse(v as int, q as int, m as int, 0);
    assert(v * den == w) by (nonlinear_arith)
        requires
            v == m * q,
            w == (m * q) * den + 0,
    ;
    assert((f + 1) * d == f * d + d) by (nonlinear_arith);
    assert(f * d == d * f) by (nonlinear_arith);
}

/// The quotient of two finite singles, the divisor not zero, has the value
/// of their exact quotient, rounded to nearest; it is infinite where that
/// reaches 2^128.  Its sign is negative exactly if one operand's is.
pub proof fn lemma_quotient_of_finite(a: Single, b: Single)
    requires
        a.finite(),
        b.finite(),
        !b.is_zero(),
    ensures
        ({
            let v = nearest_ratio(a.magnitude() * pow2(149), b.magnitude());
            let r = quotient(a, b);
            &&& !r.is_nan()
            &&& r.negative() == (a.negative() != b.negative())
            &&& v < pow2(277) ==> r.finite() && r.magnitude() == v
            &&& v >= pow2(277) ==> r.is_infinite()
        }),
{
    reveal(quotient);
    lemma2_to64();
    let num = a.magnitude() * pow2(149);
    let den = b.magnitude();
    lemma_magnitude_increases(0, b.magnitude_bits());
    lemma_nearest_ratio_is_nearest(num, den);
    let whole = num / den;
    let k = lemma_binade(whole);
    let q = pow2(k);
    lemma_pow2_pos(k);
    lemma_pow2_adds(23, k);
    let v = nearest_ratio(num, den);
    let m = v / q;
    lemma_fundamental_div_mod(v as int, q as int);
    assert(v == m * q) by (nonlinear_arith)
        requires
            v == q * m + 0,
    ;
    if k > 0 {
        lemma_fundamental_div_mod(num as int, den as int);
        assert(m >= 0x80_0000) by (nonlinear_arith)
            requires
                v == m * q,
                2 * (num - v * den) <= q * den,
                num == den * whole + num % den,
                num % den >= 0,
                whole >= 0x80_0000 * q,
                q > 0,
                den > 0,
        ;
    }
    if v < pow2(277) {
        lemma_encoding_of_magnitude(m, k);
    }
}

impl Single {
    /// `self / rhs`.
    pub open spec fn over(self, rhs: Single) -> Single {
        quotient(self, rhs)
    }

    /// Significand of a finite single that is not zero, shifted left until
    /// its leading bit is the implicit one, and the number of places.
    pub(crate) fn normalized(self) -> (r: (u64, u32))
        requires
            self.finite(),
            !self.is_zero(),
        ensures
            0x80_0000 <= r.0 < 0x100_0000,
            r.1 <= 23,
            r.1 > 0 ==> self.shift() == 0,
            r.0 == self.significand() * pow2(r.1 as nat),
    {
        let (sig, shift) = self.parts();
        let mut s: u64 = sig;
        let mut z: u32 = 0;
        proof {
            lemma2_to64();
        }
        while s < 0x80_0000
            invariant
                0 < s < 0x100_0000,
                z <= 23,
                s == sig * pow2(z as nat),
                s < 0x80_0000 ==> shift == 0,
                z > 0 ==> shift == 0,
                sig > 0,
            decreases 24 - z,
        {
            proof {
                lemma2_to64();
                lemma_pow2_unfold((z + 1) as nat);
                assert(sig * (2 * pow2(z as nat)) == 2 * (sig * pow2(z as nat)))
                    by (nonlinear_arith);
                if z >= 23 {
                    assert(sig * pow2(z as nat) >= pow2(z as nat)) by (nonlinear_arith)
                        requires
                            sig >= 1,
                    ;
                }
            }
            s = s * 2;
            z = z + 1;
        }
        (s, z)
    }

    /// The quotient of two singles, correctly rounded.
    pub fn div(self, rhs: Single) -> (r: Single)
        ensures
            r == quotient(self, rhs),
    {
        reveal(quotient);
        let ma: u32 = self.abs_bits();
        let mb: u32 = rhs.abs_bits();
        let negative = self.is_sign_negative() != rhs.is_sign_negative();
        let sign: u32 = if negative { SIGN_BIT } else { 0 };
        if ma > INFINITY_BITS || mb > INFINITY_BITS {
            return Single { bits: NAN_BITS };
        }
        if (ma == INFINITY_BITS && mb == INFINITY_BITS) || (ma == 0 && mb == 0) {
            return Single { bits: NAN_BITS };
        }
        if ma == INFINITY_BITS || mb == 0 {
            return Single { bits: INFINITY_BITS + sign };
        }
        if mb == INFINITY_BITS {
            return Single { bits: sign };
        }
        let ghost num = (self.magnitude() * pow2(149)) as nat;
        let ghost den = rhs.magnitude();
        let (sb0, hb) = rhs.parts();
        let (sb, zb) = rhs.normalized();
        proof {
            lemma2_to64();
            lemma2_to64_rest();
            lemma_pow2_pos(hb as nat);
            lemma_pow2_pos(277);
            assert(den > 0) by (nonlinear_arith)
                requires
                    den == sb0 * pow2(hb as nat),
                    sb0 > 0,
                    pow2(hb as nat) > 0,
            ;
        }
        if ma == 0 {
            proof {
                assert(self.magnitude() == 0);
                assert(num == 0) by (nonlinear_arith)
                    requires
                        num == 0 * pow2(149),
                ;
                assert(quantum(0) == 1);
                assert(round_half_even(0, den) == 0) by (nonlinear_arith)
                    requires
                        round_half_even(0, den) == 0 * den,
                ;
                reveal_with_fuel(bits_of_magnitude, 1);
            }
            return Single { bits: sign };
        }
        let (sa0, ha) = self.parts();
        let (sa, za) = self.normalized();
        // The quotient lies in [2^x, 2^(x+1)) if sa >= sb, and in (2^(x-1), 2^x) otherwise.
        let x: i32 = (ha as i32) - (za as i32) - (hb as i32) + (zb as i32) + 149;
        let up: u32 = if sa >= sb { 23 } else { 24 };
        // Exponent of the spacing of the singles around the quotient.
        let y: i32 = x - (up as i32);
        proof {
            if up < 24 {
                lemma_pow2_strictly_increases(up as nat, 24);
            }
            assert(sa * pow2(up as nat) < 0x100_0000 * 0x100_0000) by (nonlinear_arith)
                requires
                    sa < 0x100_0000,
                    pow2(up as nat) <= 0x100_0000,
            ;
            lemma_u64_shl_is_mul(sa, up as u64);
        }
        let n1: u64 = sa << (up as u64);
        let ghost k: nat = if y >= 0 { y as nat } else { 0 };
        let ghost down: nat = if y >= 0 { 0 } else { (-y) as nat };
        let ghost d1: nat = (sb * pow2(down)) as nat;
        proof {
            lemma_pow2_pos(down);
            assert(d1 >= sb) by (nonlinear_arith)
                requires
                    d1 == sb * pow2(down),
                    pow2(down) >= 1,
                    sb > 0,
            ;
            // Both fractions are sa0 * sb0 times the same power of two over each other.
            assert(ha + 149 + zb + down == za + up + hb + k);
            lemma_scaled_pair(sa0 as nat, ha as nat, 149, sb0 as nat, zb as nat, down);
            lemma_scaled_pair(sa0 as nat, za as nat, up as nat, sb0 as nat, hb as nat, k);
            assert(num * d1 == n1 * (den * pow2(k)));
        }
        if y < -25 {
            proof {
                if down > 26 {
                    lemma_pow2_strictly_increases(26, down);
                }
                assert(2 * n1 < d1) by (nonlinear_arith)
                    requires
                        n1 < 0x100_0000 * 0x100_0000,
                        d1 == sb * pow2(down),
                        sb >= 0x80_0000,
                        pow2(down) >= 0x400_0000,
                ;
                lemma_fundamental_div_mod_converse(n1 as int, d1 as int, 0, n1 as int);
                lemma_ratio_rounding(num, den, 0, n1 as nat, d1, 0);
                assert(0 * pow2(0) == 0);
                reveal_with_fuel(bits_of_magnitude, 1);
            }
            return Single { bits: sign };
        }
        proof {
            if down < 25 {
                lemma_pow2_strictly_increases(down, 25);
            }
            assert(sb * pow2(down) < 0x100_0000 * 0x400_0000) by (nonlinear_arith)
                requires
                    sb < 0x100_0000,
                    pow2(down) <= 0x200_0000,
            ;
        }
        let d: u64 = if y >= 0 {
            assert(sb * 1 == sb);
            sb
        } else {
            proof {
                lemma_u64_shl_is_mul(sb, (-y) as u64);
            }
            sb << ((-y) as u64)
        };
        assert(d == d1);
        let q: u64 = n1 / d;
        let rem: u64 = n1 % d;
        let m: u64 = if 2 * rem > d || (2 * rem == d && q % 2 == 1) {
            q + 1
        } else {
            q
        };
        proof {
            lemma_fundamental_div_mod(n1 as int, d as int);
            // The quotient has at most 24 bits, and exactly 24 where the result is normal.
            if sa >= sb {
                assert(q < 0x100_0000) by (nonlinear_arith)
                    requires
                        n1 == d * q + rem,
                        rem >= 0,
                        n1 == sa * 0x80_0000,
                        sa < 2 * sb,
                        d >= sb,
                        sb > 0,
                ;
            } else {
                assert(q < 0x100_0000) by (nonlinear_arith)
                    requires
                        n1 == d * q + rem,
                        rem >= 0,
                        n1 == sa * 0x100_0000,
                        sa < sb,
                        d >= sb,
                        sb > 0,
                ;
            }
            if y > 0 {
                assert(q >= 0x80_0000) by (nonlinear_arith)
                    requires
                        n1 == d * q + rem,
                        rem < d,
                        d == sb,
                        (n1 == sa * 0x80_0000 && sa >= sb) || (n1 == sa * 0x100_0000 && 2 * sa
                            >= sb),
                        sb > 0,
                ;
            }
            lemma_ratio_rounding(num, den, k, n1 as nat, d1, m as nat);
            lemma_bits_of_scaled(m as nat, k);
            lemma_overflow_threshold(m as nat, k);
        }
        if y >= 0 {
            let wide: u64 = (y as u64) * 0x80_0000 + m;
            if wide >= INFINITY_BITS as u64 {
                Single { bits: INFINITY_BITS + sign }
            } else {
                Single { bits: wide as u32 + sign }
            }
        } else {
            Single { bits: m as u32 + sign }
        }
    }
}

} // verus!
