//! Single-precision binary floating-point numbers, held as their 32-bit
//! encodings and reasoned about as exact integers.
//!
//! Every finite single is an integer multiple of 2^-149.  The model used in
//! all contracts is therefore the *scaled value*: the number multiplied by
//! 2^149, a mathematical integer.  Infinity scales to 2^277, one binade above
//! the largest finite magnitude, so that ordering is uniform over all
//! numbers that are not NaN.
use vstd::arithmetic::power2::{
    lemma2_to64,
    lemma_pow2_pos,
    lemma_pow2_strictly_increases,
    lemma_pow2_unfold,
    pow2,
};
use vstd::prelude::*;

verus! {

/// The bit that carries the sign.
pub const SIGN_BIT: u32 = 0x8000_0000;

/// Encoding of positive infinity; every larger magnitude encodes a NaN.
pub const INFINITY_BITS: u32 = 0x7F80_0000;

/// Weight of the implicit leading bit of a normal significand, 2^23.
pub const HIDDEN_BIT: u32 = 0x0080_0000;

/// Encoding of the NaN that arithmetic in this crate produces.
pub const NAN_BITS: u32 = 0x7FC0_0000;

/// Encoding of one.
pub const ONE_BITS: u32 = 0x3F80_0000;

/// Encoding of two.
pub const TWO_BITS: u32 = 0x4000_0000;

/// Encoding of the single nearest to π.
pub const PI_BITS: u32 = 0x4049_0FDB;

/// Encoding of the single nearest to 2π, exactly twice the one at [`PI_BITS`].
pub const TWO_PI_BITS: u32 = 0x40C9_0FDB;

/// A single-precision number, identified by its encoding.
///
/// Equality on this type is identity of encodings: it tells `+0` from `-0`
/// and one NaN from another.  Numeric comparison is [`Single::lt`] and its
/// relatives.
#[derive(Clone, Copy, Debug, PartialEq, Eq, Structural)]
pub struct Single {
    pub bits: u32,
}

/// Scaled magnitude encoded by the low 31 bits `m` of a single that is not a
/// NaN: the significand times two to the power of the exponent, in units of
/// 2^-149.
pub open spec fn magnitude_of(m: nat) -> nat {
    let e = m / 0x80_0000;
    let f = m % 0x80_0000;
    if e == 0 {
        f
    } else {
        (0x80_0000 + f) * pow2((e - 1) as nat)
    }
}

/// Zero, and only zero, has magnitude zero.
pub proof fn lemma_magnitude_of_zero()
    ensures
        magnitude_of(0) == 0,
{
}

/// Larger encodings stand for larger magnitudes.
pub proof fn lemma_magnitude_increases(m1: nat, m2: nat)
    requires
        m1 < m2,
    ensures
        magnitude_of(m1) < magnitude_of(m2),
{
    let e1 = m1 / 0x80_0000;
    let f1 = m1 % 0x80_0000;
    let e2 = m2 / 0x80_0000;
    let f2 = m2 % 0x80_0000;
    assert(e1 <= e2);
    if e2 > 0 {
        let high = pow2((e2 - 1) as nat);
        lemma_pow2_pos((e2 - 1) as nat);
        if e1 == e2 {
            assert((0x80_0000 + f1) * high < (0x80_0000 + f2) * high) by (nonlinear_arith)
                requires
                    f1 < f2,
                    high > 0,
            ;
        } else if e1 == 0 {
            assert(f1 < (0x80_0000 + f2) * high) by (nonlinear_arith)
                requires
                    f1 < 0x80_0000,
                    f2 >= 0,
                    high >= 1,
            ;
        } else {
            let low = pow2((e1 - 1) as nat);
            lemma_pow2_pos((e1 - 1) as nat);
            lemma_pow2_unfold(e1);
            if e1 < e2 - 1 {
                lemma_pow2_strictly_increases(e1, (e2 - 1) as nat);
            }
            assert((0x80_0000 + f1) * low < (0x80_0000 + f2) * high) by (nonlinear_arith)
                requires
                    f1 < 0x80_0000,
                    f2 >= 0,
                    low > 0,
                    2 * low <= high,
            ;
        }
    }
}

impl Single {
    /// Whether the sign bit is set.
    pub open spec fn negative(self) -> bool {
        self.bits >= SIGN_BIT
    }

    /// The encoding without its sign bit.
    pub open spec fn magnitude_bits(self) -> nat {
        if self.bits >= SIGN_BIT {
            (self.bits - SIGN_BIT) as nat
        } else {
            self.bits as nat
        }
    }

    /// Whether this is not a number.
    pub open spec fn is_nan(self) -> bool {
        self.magnitude_bits() > INFINITY_BITS
    }

    /// Whether this is positive or negative infinity.
    pub open spec fn is_infinite(self) -> bool {
        self.magnitude_bits() == INFINITY_BITS
    }

    /// Whether this is zero, subnormal or normal.
    pub open spec fn finite(self) -> bool {
        self.magnitude_bits() < INFINITY_BITS
    }

    /// Whether this is positive or negative zero.
    pub open spec fn is_zero(self) -> bool {
        self.magnitude_bits() == 0
    }

    /// The significand: the stored fraction, with the implicit leading bit
    /// for a normal number.
    pub open spec fn significand(self) -> nat {
        let e = self.magnitude_bits() / 0x80_0000;
        let f = self.magnitude_bits() % 0x80_0000;
        if e == 0 {
            f
        } else {
            0x80_0000 + f
        }
    }

    /// The power of two by which the significand is multiplied to give the
    /// scaled magnitude.
    pub open spec fn shift(self) -> nat {
        let e = self.magnitude_bits() / 0x80_0000;
        if e == 0 {
            0
        } else {
            (e - 1) as nat
        }
    }

    /// Absolute value times 2^149.  Meaningful unless `self` is a NaN.
    pub open spec fn magnitude(self) -> nat {
        magnitude_of(self.magnitude_bits())
    }

    /// Value times 2^149.  Meaningful unless `self` is a NaN.
    pub open spec fn scaled(self) -> int {
        if self.negative() {
            -(self.magnitude() as int)
        } else {
            self.magnitude() as int
        }
    }

    /// The number with the same magnitude and the opposite sign.
    pub open spec fn negated(self) -> Single {
        if self.bits >= SIGN_BIT {
            Single { bits: (self.bits - SIGN_BIT) as u32 }
        } else {
            Single { bits: (self.bits + SIGN_BIT) as u32 }
        }
    }

    /// The number with the same magnitude and a clear sign bit.
    pub open spec fn absolute(self) -> Single {
        Single { bits: self.magnitude_bits() as u32 }
    }

    /// Numeric `<`: false whenever either side is a NaN.
    pub open spec fn less(self, other: Single) -> bool {
        !self.is_nan() && !other.is_nan() && self.scaled() < other.scaled()
    }

    /// Numeric `<=`: false whenever either side is a NaN.
    pub open spec fn at_most(self, other: Single) -> bool {
        !self.is_nan() && !other.is_nan() && self.scaled() <= other.scaled()
    }

    /// Zero with the given sign.
    pub open spec fn zero(negative: bool) -> Single {
        Single { bits: if negative { SIGN_BIT } else { 0 } }
    }

    /// The NaN that arithmetic in this crate produces.
    pub open spec fn nan() -> Single {
        Single { bits: NAN_BITS }
    }

    /// Positive zero.
    pub open spec fn spec_positive_zero() -> Single {
        Single { bits: 0 }
    }

    /// One.
    pub open spec fn spec_one() -> Single {
        Single { bits: ONE_BITS }
    }

    /// Two.
    pub open spec fn spec_two() -> Single {
        Single { bits: TWO_BITS }
    }

    /// The single nearest to π.
    pub open spec fn spec_pi() -> Single {
        Single { bits: PI_BITS }
    }

    /// The single nearest to 2π.
    pub open spec fn spec_two_pi() -> Single {
        Single { bits: TWO_PI_BITS }
    }

    /// The single with the given encoding.
    pub fn from_bits(bits: u32) -> (r: Single)
        ensures
            r.bits == bits,
    {
        Single { bits }
    }

    /// The encoding of this single.
    pub fn to_bits(self) -> (r: u32)
        ensures
            r == self.bits,
    {
        self.bits
    }

    /// Whether the sign bit is set.
    pub fn is_sign_negative(self) -> (r: bool)
        ensures
            r == self.negative(),
    {
        self.bits >= SIGN_BIT
    }

    /// The encoding without its sign bit.
    pub fn abs_bits(self) -> (r: u32)
        ensures
            r == self.magnitude_bits(),
            r < SIGN_BIT,
    {
        if self.bits >= SIGN_BIT {
            self.bits - SIGN_BIT
        } else {
            self.bits
        }
    }

    /// Significand and shift of a finite number.
    pub(crate) fn parts(self) -> (r: (u64, u32))
        requires
            self.finite(),
        ensures
            r.0 == self.significand(),
            r.1 == self.shift(),
            r.0 < 0x100_0000,
            r.1 <= 253,
            r.1 > 0 ==> r.0 >= 0x80_0000,
            self.magnitude_bits() == r.1 * 0x80_0000 + r.0,
            self.magnitude() == r.0 * pow2(r.1 as nat),
    {
        let m: u32 = self.abs_bits();
        let e: u32 = m / HIDDEN_BIT;
        let f: u32 = m % HIDDEN_BIT;
        proof {
            lemma2_to64();
            assert(f * 1 == f);
        }
        if e == 0 {
            (f as u64, 0)
        } else {
            ((f + HIDDEN_BIT) as u64, e - 1)
        }
    }

    /// Whether this is neither infinite nor a NaN.
    pub fn is_finite(self) -> (r: bool)
        ensures
            r == self.finite(),
    {
        self.abs_bits() < INFINITY_BITS
    }

    /// The number with the opposite sign.  Exact for every input: only the
    /// sign bit changes.
    pub fn neg(self) -> (r: Single)
        ensures
            r == self.negated(),
            r.magnitude_bits() == self.magnitude_bits(),
            r.negative() != self.negative(),
            r.negated() == self,
    {
        if self.bits >= SIGN_BIT {
            Single { bits: self.bits - SIGN_BIT }
        } else {
            Single { bits: self.bits + SIGN_BIT }
        }
    }

    /// The absolute value.  Exact for every input: only the sign bit changes.
    pub fn abs(self) -> (r: Single)
        ensures
            r == self.absolute(),
            !r.negative(),
            r.magnitude_bits() == self.magnitude_bits(),
    {
        Single { bits: self.abs_bits() }
    }

    /// Numeric `<`.  False whenever either side is a NaN; `-0` is not less
    /// than `+0`.
    pub fn lt(self, other: Single) -> (r: bool)
        ensures
            r == self.less(other),
    {
        let ma: u32 = self.abs_bits();
        let mb: u32 = other.abs_bits();
        if ma > INFINITY_BITS || mb > INFINITY_BITS {
            return false;
        }
        proof {
            lemma_magnitude_of_zero();
            if ma < mb {
                lemma_magnitude_increases(ma as nat, mb as nat);
            }
            if mb < ma {
                lemma_magnitude_increases(mb as nat, ma as nat);
            }
            if ma > 0 {
                lemma_magnitude_increases(0, ma as nat);
            }
            if mb > 0 {
                lemma_magnitude_increases(0, mb as nat);
            }
        }
        if self.is_sign_negative() {
            if other.is_sign_negative() {
                mb < ma
            } else {
                ma != 0 || mb != 0
            }
        } else {
            !other.is_sign_negative() && ma < mb
        }
    }

    /// Numeric `<=`.  False whenever either side is a NaN; `-0` and `+0`
    /// are equal.
    pub fn le(self, other: Single) -> (r: bool)
        ensures
            r == self.at_most(other),
    {
        let ma: u32 = self.abs_bits();
        let mb: u32 = other.abs_bits();
        if ma > INFINITY_BITS || mb > INFINITY_BITS {
            return false;
        }
        proof {
            lemma_magnitude_of_zero();
            if ma < mb {
                lemma_magnitude_increases(ma as nat, mb as nat);
            }
            if mb < ma {
                lemma_magnitude_increases(mb as nat, ma as nat);
            }
            if ma > 0 {
                lemma_magnitude_increases(0, ma as nat);
            }
            if mb > 0 {
                lemma_magnitude_increases(0, mb as nat);
            }
        }
        if self.is_sign_negative() {
            if other.is_sign_negative() {
                mb <= ma
            } else {
                true
            }
        } else if other.is_sign_negative() {
            ma == 0 && mb == 0
        } else {
            ma <= mb
        }
    }

    /// Numeric `>`: `other < self`.
    pub fn gt(self, other: Single) -> (r: bool)
        ensures
            r == other.less(self),
    {
        other.lt(self)
    }

    /// Numeric `>=`: `other <= self`.
    pub fn ge(self, other: Single) -> (r: bool)
        ensures
            r == other.at_most(self),
    {
        other.le(self)
    }

    /// Positive zero.
    #[verifier::when_used_as_spec(spec_positive_zero)]
    pub fn positive_zero() -> (r: Single)
        ensures
            r == Self::spec_positive_zero(),
    {
        Single { bits: 0 }
    }

    /// One.
    #[verifier::when_used_as_spec(spec_one)]
    pub fn one() -> (r: Single)
        ensures
            r == Self::spec_one(),
    {
        Single { bits: ONE_BITS }
    }

    /// Two.
    #[verifier::when_used_as_spec(spec_two)]
    pub fn two() -> (r: Single)
        ensures
            r == Self::spec_two(),
    {
        Single { bits: TWO_BITS }
    }

    /// The single nearest to π.
    #[verifier::when_used_as_spec(spec_pi)]
    pub fn pi() -> (r: Single)
        ensures
            r == Self::spec_pi(),
    {
        Single { bits: PI_BITS }
    }

    /// The single nearest to 2π.
    #[verifier::when_used_as_spec(spec_two_pi)]
    pub fn two_pi() -> (r: Single)
        ensures
            r == Self::spec_two_pi(),
    {
        Single { bits: TWO_PI_BITS }
    }
}

} // verus!
