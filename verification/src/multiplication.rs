//! Correctly rounded multiplication of singles.
//!
//! The product of two finite singles is the exact product of their values,
//! rounded to the nearest single with ties to even.  It overflows to
//! infinity and underflows through the subnormals to zero; its sign is the
//! exclusive or of the factors' signs.
use crate::addition::lemma_rounded_own_magnitude;
use crate::rounding::{
    lemma_nearest_at_scaled,
    lemma_nearest_at_unit,
    lemma_rounded_at_value,
    nearest_at,
    round_fraction,
    round_to_single,
    rounded_at,
};
use crate::single::{Single, INFINITY_BITS, NAN_BITS, ONE_BITS, SIGN_BIT};
use vstd::arithmetic::power2::{lemma2_to64, lemma_pow2_adds, lemma_pow2_pos, pow2};
use vstd::prelude::*;

verus! {

/// The product of two singles.
///
/// The product of two scaled magnitudes is the magnitude of the product
/// in units of 2^-298, that is with 149 fractional bits.
#[verifier::opaque]
pub open spec fn product(a: Single, b: Single) -> Single {
    let negative = a.negative() != b.negative();
    if a.is_nan() || b.is_nan() {
        Single::nan()
    } else if a.is_infinite() || b.is_infinite() {
        if a.is_zero() || b.is_zero() {
            Single::nan()
        } else {
            Single { bits: (INFINITY_BITS + if negative { SIGN_BIT } else { 0 }) as u32 }
        }
    } else {
        rounded_at(negative, a.magnitude() * b.magnitude(), 149)
    }
}

/// The product of two finite singles has the value of their exact product,
/// rounded to nearest at 24 significant bits or at the spacing of the
/// subnormals, whichever is coarser; it is infinite where that reaches
/// 2^128.  Its sign is negative exactly if one factor's is.
pub proof fn lemma_product_of_finite(a: Single, b: Single)
    requires
        a.finite(),
        b.finite(),
    ensures
        ({
            let t = a.magnitude() * b.magnitude();
            let r = product(a, b);
            &&& !r.is_nan()
            &&& r.negative() == (a.negative() != b.negative())
            &&& nearest_at(t, 149) < pow2(277) ==> r.finite() && r.magnitude() == nearest_at(
                t,
                149,
            )
            &&& nearest_at(t, 149) >= pow2(277) ==> r.is_infinite()
        }),
{
    reveal(product);
    lemma_rounded_at_value(a.negative() != b.negative(), a.magnitude() * b.magnitude(), 149);
}

/// Multiplying by one changes nothing, and multiplying by minus one
/// changes the sign only.
pub proof fn lemma_product_with_unit(x: Single)
    requires
        !x.is_nan(),
    ensures
        product(x, Single::spec_one()) == x,
        product(x, Single::spec_one().negated()) == x.negated(),
{
    reveal(product);
    lemma2_to64();
    let one = Single::spec_one();
    assert(ONE_BITS / 0x80_0000 == 127 && ONE_BITS % 0x80_0000 == 0);
    lemma_pow2_adds(23, 126);
    assert(one.magnitude() == pow2(149));
    assert(one.negated().magnitude() == pow2(149));
    if x.finite() {
        lemma_nearest_at_scaled(x.magnitude(), 0, 149);
        lemma_nearest_at_unit(x.magnitude());
        lemma_rounded_own_magnitude(x);
        lemma_rounded_own_magnitude(x.negated());
    }
}

impl Single {
    /// `self * rhs`.
    pub open spec fn times(self, rhs: Single) -> Single {
        product(self, rhs)
    }

    /// The product of two singles, correctly rounded.
    pub fn mul(self, rhs: Single) -> (r: Single)
        ensures
            r == product(self, rhs),
    {
        reveal(product);
        let ma: u32 = self.abs_bits();
        let mb: u32 = rhs.abs_bits();
        let negative = self.is_sign_negative() != rhs.is_sign_negative();
        let sign: u32 = if negative { SIGN_BIT } else { 0 };
        if ma > INFINITY_BITS || mb > INFINITY_BITS {
            return Single { bits: NAN_BITS };
        }
        if ma == INFINITY_BITS || mb == INFINITY_BITS {
            if ma == 0 || mb == 0 {
                return Single { bits: NAN_BITS };
            }
            return Single { bits: INFINITY_BITS + sign };
        }
        let (sa, ha) = self.parts();
        let (sb, hb) = rhs.parts();
        assert(sa * sb < 0x100_0000 * 0x100_0000) by (nonlinear_arith)
            requires
                sa < 0x100_0000,
                sb < 0x100_0000,
        ;
        let p: u64 = sa * sb;
        let h: u32 = ha + hb;
        let ghost t = self.magnitude() * rhs.magnitude();
        proof {
            lemma_pow2_adds(ha as nat, hb as nat);
            assert(t == p * pow2(h as nat)) by (nonlinear_arith)
                requires
                    t == (sa * pow2(ha as nat)) * (sb * pow2(hb as nat)),
                    p == sa * sb,
                    pow2(h as nat) == pow2(ha as nat) * pow2(hb as nat),
            ;
        }
        if p == 0 {
            proof {
                assert(t == 0) by (nonlinear_arith)
                    requires
                        t == p * pow2(h as nat),
                        p == 0,
                ;
                reveal_with_fuel(crate::rounding::bits_of_magnitude, 1);
                lemma_pow2_pos(149);
                lemma_pow2_pos(277);
                assert(crate::rounding::quantum(0) == 1);
                assert(crate::rounding::round_half_even(0, pow2(149)) == 0) by (nonlinear_arith)
                    requires
                        crate::rounding::round_half_even(0, pow2(149)) == 0 * pow2(149),
                ;
            }
            return Single { bits: sign };
        }
        if h >= 149 {
            proof {
                let scaled = (p * pow2((h - 149) as nat)) as nat;
                lemma_pow2_adds((h - 149) as nat, 149);
                assert(t == scaled * pow2(149)) by (nonlinear_arith)
                    requires
                        t == p * (pow2((h - 149) as nat) * pow2(149)),
                        scaled == p * pow2((h - 149) as nat),
                ;
                lemma_nearest_at_scaled(scaled, 0, 149);
                lemma_nearest_at_unit(scaled);
            }
            round_to_single(negative, p, h - 149)
        } else {
            proof {
                lemma_nearest_at_scaled(p as nat, (149 - h) as nat, h as nat);
            }
            round_fraction(negative, p, 149 - h)
        }
    }
}

} // verus!
