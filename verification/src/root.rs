//! Correctly rounded square roots of singles.
//!
//! The square root of a positive finite single is the exact root of its
//! value, rounded to the nearest single.  (It is never half-way between
//! two singles, so no tie arises.)
use crate::rounding::{
    bits_of_magnitude,
    lemma_binade,
    lemma_bits_of_scaled,
    lemma_encoding_of_magnitude,
    lemma_quantum_in_binade,
    quantum,
};
use crate::single::{lemma_magnitude_increases, Single, INFINITY_BITS, NAN_BITS};
use vstd::arithmetic::div_mod::{lemma_fundamental_div_mod, lemma_fundamental_div_mod_converse};
use vstd::arithmetic::power2::{
    lemma2_to64,
    lemma2_to64_rest,
    lemma_pow2_adds,
    lemma_pow2_pos,
    lemma_pow2_strictly_increases,
    pow2,
};
use vstd::bits::lemma_u64_shl_is_mul;
use vstd::prelude::*;

verus! {

/// Whether `r` is the whole part of the square root of `n`.
pub open spec fn is_floor_sqrt(n: nat, r: nat) -> bool {
    r * r <= n < (r + 1) * (r + 1)
}

/// The whole part of the square root of `n`.
pub open spec fn floor_sqrt(n: nat) -> nat {
    choose|r: nat| is_floor_sqrt(n, r)
}

/// The square root of `t`, rounded to 24 significant bits, or to a whole
/// number where that is coarser: of the two multiples of the spacing that
/// enclose the root, the lower if the root lies below their mean.
pub open spec fn nearest_root(t: nat) -> nat {
    let q = quantum(floor_sqrt(t));
    let f = floor_sqrt(t) / q;
    if 4 * t < ((2 * f + 1) * q) * ((2 * f + 1) * q) {
        f * q
    } else {
        (f + 1) * q
    }
}

/// The square root of a single.
///
/// The square of a scaled magnitude is in units of 2^-298, so the scaled
/// magnitude of the root of `x` is the root of `x`'s, times 2^149.
#[verifier::opaque]
pub open spec fn root(x: Single) -> Single {
    if x.is_nan() {
        Single::nan()
    } else if x.is_zero() {
        x
    } else if x.negative() {
        Single::nan()
    } else if x.is_infinite() {
        x
    } else {
        Single { bits: bits_of_magnitude(nearest_root(x.magnitude() * pow2(149))) as u32 }
    }
}

/// Every natural number has a whole square root.
pub proof fn lemma_floor_sqrt_exists(n: nat) -> (r: nat)
    ensures
        is_floor_sqrt(n, r),
    decreases n,
{
    if n == 0 {
        assert(is_floor_sqrt(0, 0)) by (nonlinear_arith);
        0
    } else {
        let r = lemma_floor_sqrt_exists((n - 1) as nat);
        assert(is_floor_sqrt((n - 1) as nat, r));
        if (r + 1) * (r + 1) <= n {
            assert(is_floor_sqrt(n, r + 1)) by (nonlinear_arith)
                requires
                    (r + 1) * (r + 1) <= n,
                    n - 1 < (r + 1) * (r + 1),
            ;
            r + 1
        } else {
            assert(is_floor_sqrt(n, r));
            r
        }
    }
}

/// The whole square root is unique.
pub proof fn lemma_floor_sqrt_unique(n: nat, r: nat)
    requires
        is_floor_sqrt(n, r),
    ensures
        floor_sqrt(n) == r,
{
    let s = floor_sqrt(n);
    assert(is_floor_sqrt(n, s));
    if s < r {
        assert((s + 1) * (s + 1) <= r * r) by (nonlinear_arith)
            requires
                s + 1 <= r,
        ;
    }
    if r < s {
        assert((r + 1) * (r + 1) <= s * s) by (nonlinear_arith)
            requires
                r + 1 <= s,
        ;
    }
}

/// The whole square root of `n * q * q` lies between `q` times that of `n`
/// and `q` times its successor.
pub proof fn lemma_floor_sqrt_scaled(n: nat, q: nat, r: nat)
    requires
        q > 0,
        is_floor_sqrt(n, r),
    ensures
        floor_sqrt(n * q * q) / q == r,
        r * q <= floor_sqrt(n * q * q) < (r + 1) * q,
{
    let t = n * q * q;
    let w = lemma_floor_sqrt_exists(t);
    lemma_floor_sqrt_unique(t, w);
    assert((r * q) * (r * q) <= t) by (nonlinear_arith)
        requires
            r * r <= n,
            t == n * q * q,
    ;
    assert(t < ((r + 1) * q) * ((r + 1) * q)) by (nonlinear_arith)
        requires
            n < (r + 1) * (r + 1),
            t == n * q * q,
            q > 0,
    ;
    if w < r * q {
        assert((w + 1) * (w + 1) <= (r * q) * (r * q)) by (nonlinear_arith)
            requires
                w + 1 <= r * q,
        ;
    }
    if w >= (r + 1) * q {
        assert(w * w >= ((r + 1) * q) * ((r + 1) * q)) by (nonlinear_arith)
            requires
                w >= (r + 1) * q,
                (r + 1) * q >= 0,
        ;
    }
    assert((r + 1) * q == r * q + q) by (nonlinear_arith);
    lemma_fundamental_div_mod_converse(w as int, q as int, r as int, w - r * q);
}

/// The square root of a positive finite single is finite and positive, and
/// its value is the exact root rounded to nearest.
pub proof fn lemma_root_of_positive(x: Single)
    requires
        x.finite(),
        !x.negative(),
        !x.is_zero(),
    ensures
        root(x).finite(),
        !root(x).negative(),
        root(x).magnitude() == nearest_root(x.magnitude() * pow2(149)),
{
    reveal(root);
    lemma2_to64();
    let t = x.magnitude() * pow2(149);
    // The whole root is below 2^213.
    lemma_magnitude_increases(x.magnitude_bits(), INFINITY_BITS as nat);
    lemma_pow2_adds(23, 254);
    assert(INFINITY_BITS / 0x80_0000 == 255 && INFINITY_BITS % 0x80_0000 == 0);
    assert(x.magnitude() < pow2(277));
    lemma_pow2_adds(277, 149);
    lemma_pow2_adds(213, 213);
    lemma_pow2_pos(149);
    assert(t < pow2(213) * pow2(213)) by (nonlinear_arith)
        requires
            t == x.magnitude() * pow2(149),
            x.magnitude() < pow2(277),
            pow2(149) > 0,
            pow2(213) * pow2(213) == pow2(277) * pow2(149),
    ;
    let whole = lemma_floor_sqrt_exists(t);
    lemma_floor_sqrt_unique(t, whole);
    if whole >= pow2(213) {
        assert(whole * whole >= pow2(213) * pow2(213)) by (nonlinear_arith)
            requires
                whole >= pow2(213),
        ;
    }
    // It lies in a binade, so the rounded root is normalised.
    let k = lemma_binade(whole);
    let q = pow2(k);
    lemma_pow2_pos(k);
    lemma_pow2_adds(23, k);
    lemma_pow2_adds(24, k);
    let f = whole / q;
    lemma_fundamental_div_mod(whole as int, q as int);
    assert(f < 0x100_0000) by (nonlinear_arith)
        requires
            whole == q * f + whole % q,
            whole % q >= 0,
            whole < 0x100_0000 * q,
            q > 0,
    ;
    if k > 0 {
        assert(f >= 0x80_0000) by (nonlinear_arith)
            requires
                whole == q * f + whole % q,
                whole % q < q,
                whole >= 0x80_0000 * q,
                q > 0,
        ;
    }
    let v = nearest_root(t);
    let m = if v == f * q { f } else { f + 1 };
    assert(v == m * q);
    assert(m * q <= 2 * whole + 1) by (nonlinear_arith)
        requires
            m <= f + 1,
            whole == q * f + whole % q,
            whole % q >= 0,
            q == 1 || q <= whole,
            q > 0,
            f >= 0,
    ;
    lemma_pow2_strictly_increases(214, 277);
    lemma_pow2_adds(1, 213);
    lemma_encoding_of_magnitude(m, k);
}

/// The whole part of the square root of a number below 2^48.
pub(crate) fn whole_root(n: u64) -> (r: u64)
    requires
        n < 0x1_0000_0000_0000,
    ensures
        is_floor_sqrt(n as nat, r as nat),
        r < 0x100_0000,
{
    let mut lo: u64 = 0;
    let mut hi: u64 = 0x100_0000;
    while hi - lo > 1
        invariant
            lo < hi <= 0x100_0000,
            lo * lo <= n < hi * hi,
        decreases hi - lo,
    {
        let mid: u64 = lo + (hi - lo) / 2;
        assert(mid * mid <= 0x100_0000 * 0x100_0000) by (nonlinear_arith)
            requires
                mid <= 0x100_0000,
        ;
        if mid * mid <= n {
            lo = mid;
        } else {
            hi = mid;
        }
    }
    lo
}

impl Single {
    /// `√self`.
    pub open spec fn square_root(self) -> Single {
        root(self)
    }

    /// The square root, correctly rounded.
    pub fn sqrt(self) -> (r: Single)
        ensures
            r == root(self),
    {
        reveal(root);
        let ma: u32 = self.abs_bits();
        if ma > INFINITY_BITS {
            return Single { bits: NAN_BITS };
        }
        if ma == 0 {
            return self;
        }
        if self.is_sign_negative() {
            return Single { bits: NAN_BITS };
        }
        if ma == INFINITY_BITS {
            return self;
        }
        let (s0, h) = self.parts();
        let (sx, z) = self.normalized();
        // The scaled magnitude, times 2^149, is sx * 2^w.
        let w: u32 = h + 149 - z;
        let up: u32 = if w % 2 == 1 { 23 } else { 24 };
        let y: u32 = (w - up) / 2;
        proof {
            lemma2_to64();
            lemma2_to64_rest();
            if up < 24 {
                lemma_pow2_strictly_increases(up as nat, 24);
            }
            assert(sx * pow2(up as nat) < 0x100_0000 * 0x100_0000) by (nonlinear_arith)
                requires
                    sx < 0x100_0000,
                    pow2(up as nat) <= 0x100_0000,
            ;
            lemma_u64_shl_is_mul(sx, up as u64);
        }
        let n: u64 = sx << (up as u64);
        let f: u64 = whole_root(n);
        let m: u64 = if n - f * f > f { f + 1 } else { f };
        proof {
            let q = pow2(y as nat);
            let t = (self.magnitude() * pow2(149)) as nat;
            lemma_pow2_pos(y as nat);
            // t is n times the square of q.
            lemma_pow2_adds(y as nat, y as nat);
            lemma_pow2_adds(up as nat, (2 * y) as nat);
            lemma_pow2_adds(h as nat, 149);
            lemma_pow2_adds(z as nat, w as nat);
            assert(up + 2 * y == w);
            assert(z + w == h + 149);
            assert(t == n * q * q) by (nonlinear_arith)
                requires
                    t == (s0 * pow2(h as nat)) * pow2(149),
                    pow2(h as nat) * pow2(149) == pow2(z as nat) * pow2(w as nat),
                    sx == s0 * pow2(z as nat),
                    n == sx * pow2(up as nat),
                    pow2(w as nat) == pow2(up as nat) * (q * q),
            ;
            // The whole root of n has exactly 24 bits.
            assert(n >= 0x80_0000 * 0x80_0000) by (nonlinear_arith)
                requires
                    n == sx * pow2(up as nat),
                    sx >= 0x80_0000,
                    pow2(up as nat) >= 0x80_0000,
            ;
            if f < 0x80_0000 {
                assert((f + 1) * (f + 1) <= 0x80_0000 * 0x80_0000) by (nonlinear_arith)
                    requires
                        f + 1 <= 0x80_0000,
                ;
            }
            lemma_floor_sqrt_scaled(n as nat, q, f as nat);
            let whole = floor_sqrt(t);
            lemma_pow2_adds(23, y as nat);
            lemma_pow2_adds(24, y as nat);
            assert(0x80_0000 * q <= whole < 0x100_0000 * q) by (nonlinear_arith)
                requires
                    f * q <= whole < (f + 1) * q,
                    0x80_0000 <= f < 0x100_0000,
                    q > 0,
            ;
            lemma_quantum_in_binade(whole, y as nat);
            // The root lies below the mean of its neighbours exactly if the
            // remainder of n is at most f.
            let mean = (2 * f + 1) * q;
            assert((4 * t < mean * mean) == (n - f * f <= f)) by (nonlinear_arith)
                requires
                    t == n * q * q,
                    mean == (2 * f + 1) * q,
                    q > 0,
            ;
            assert(nearest_root(t) == m * q);
            lemma_bits_of_scaled(m as nat, y as nat);
        }
        Single { bits: y * 0x80_0000 + (m as u32) }
    }
}

} // verus!
