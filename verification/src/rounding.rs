//! Rounding of exact values to single precision: to the nearest
//! representable number, ties to the one with an even significand.
//!
//! Exact values are natural numbers in units of 2^-149, the scale at which
//! every finite single is an integer.
use crate::single::{magnitude_of, Single, INFINITY_BITS, SIGN_BIT};
use vstd::arithmetic::div_mod::{
    lemma_fundamental_div_mod,
    lemma_fundamental_div_mod_converse,
};
use vstd::arithmetic::power2::{
    lemma2_to64,
    lemma2_to64_rest,
    lemma_pow2_adds,
    lemma_pow2_pos,
    lemma_pow2_strictly_increases,
    lemma_pow2_unfold,
    pow2,
};
use vstd::bits::lemma_u64_shl_is_mul;
use vstd::prelude::*;

verus! {

/// Spacing of the singles around the exact magnitude `t`: the power of two
/// such that `t` lies in `[2^23, 2^24)` times it, and one (the spacing of the
/// subnormals) below that.
pub open spec fn quantum(t: nat) -> nat
    decreases t,
{
    if t < 0x100_0000 {
        1
    } else {
        2 * quantum(t / 2)
    }
}

/// The multiple of `q` nearest to `t`; of two equally near, the even
/// multiple.
pub open spec fn round_half_even(t: nat, q: nat) -> nat {
    let f = t / q;
    let r = t % q;
    if 2 * r < q || (2 * r == q && f % 2 == 0) {
        f * q
    } else {
        (f + 1) * q
    }
}

/// The exact magnitude `t` rounded to 24 significant bits, with no bound on
/// the exponent.
pub open spec fn nearest(t: nat) -> nat {
    round_half_even(t, quantum(t))
}

/// Encoding of the magnitude `v`, for `v` with at most 24 significant bits.
pub open spec fn bits_of_magnitude(v: nat) -> nat
    decreases v,
{
    if v < 0x100_0000 {
        v
    } else {
        bits_of_magnitude(v / 2) + 0x80_0000
    }
}

/// The single that results from the exact magnitude `t` and a sign: `t`
/// rounded to nearest, and infinity where that reaches 2^128.
pub open spec fn rounded(negative: bool, t: nat) -> Single {
    let v = nearest(t);
    let m = if v >= pow2(277) {
        INFINITY_BITS as nat
    } else {
        bits_of_magnitude(v)
    };
    Single { bits: (m + if negative { SIGN_BIT as nat } else { 0 }) as u32 }
}

/// Between `2^(23+k)` and `2^(24+k)` the spacing is `2^k`.
pub proof fn lemma_quantum_in_binade(t: nat, k: nat)
    requires
        t < pow2(24 + k),
        k > 0 ==> pow2(23 + k) <= t,
    ensures
        quantum(t) == pow2(k),
    decreases k,
{
    lemma2_to64();
    if k == 0 {
    } else {
        lemma_pow2_unfold(24 + k);
        lemma_pow2_unfold(23 + k);
        lemma_pow2_unfold(k);
        if k > 1 {
            lemma_pow2_strictly_increases(24, 23 + k);
        }
        assert(t >= 0x100_0000);
        let half = t / 2;
        assert(half < pow2(23 + k));
        assert(pow2((22 + k) as nat) <= half);
        assert(24 + (k - 1) as nat == 23 + k);
        assert(23 + (k - 1) as nat == (22 + k) as nat);
        lemma_quantum_in_binade(half, (k - 1) as nat);
    }
}

/// Scaling numerator and denominator by the same power of two changes
/// neither the quotient nor, up to that scale, the remainder.
pub proof fn lemma_scaled_div_mod(n: nat, s: nat, h: nat)
    ensures
        (n * pow2(h)) / pow2(s + h) == n / pow2(s),
        (n * pow2(h)) % pow2(s + h) == (n % pow2(s)) * pow2(h),
{
    let ps = pow2(s);
    let ph = pow2(h);
    lemma_pow2_pos(s);
    lemma_pow2_pos(h);
    lemma_pow2_adds(s, h);
    let q = n / ps;
    let r = n % ps;
    lemma_fundamental_div_mod(n as int, ps as int);
    assert(n * ph == q * (ps * ph) + r * ph) by (nonlinear_arith)
        requires
            n == ps * q + r,
    ;
    assert(r * ph < ps * ph) by (nonlinear_arith)
        requires
            0 <= r < ps,
            ph > 0,
    ;
    assert(0 <= r * ph) by (nonlinear_arith)
        requires
            0 <= r,
            0 <= ph,
    ;
    lemma_fundamental_div_mod_converse(
        (n * ph) as int,
        (ps * ph) as int,
        q as int,
        (r * ph) as int,
    );
}

/// The spacing around a magnitude of at most 24 significant bits divides
/// it: the spacing around `m * 2^e` is `2^j` for some `j <= e`.
pub proof fn lemma_quantum_of_multiple(m: nat, e: nat) -> (j: nat)
    requires
        m < 0x100_0000,
    ensures
        j <= e,
        quantum(m * pow2(e)) == pow2(j),
    decreases e,
{
    lemma2_to64();
    let t = m * pow2(e);
    if e == 0 {
        assert(m * 1 == m);
        0
    } else if t < 0x100_0000 {
        0
    } else {
        lemma_pow2_unfold(e);
        let rest = pow2((e - 1) as nat);
        assert(t == 2 * (m * rest)) by (nonlinear_arith)
            requires
                t == m * (2 * rest),
        ;
        let j = lemma_quantum_of_multiple(m, (e - 1) as nat);
        lemma_pow2_unfold(j + 1);
        j + 1
    }
}

/// A magnitude of at most 24 significant bits rounds to itself.
pub proof fn lemma_nearest_of_representable(m: nat, e: nat)
    requires
        m < 0x100_0000,
    ensures
        nearest(m * pow2(e)) == m * pow2(e),
{
    let j = lemma_quantum_of_multiple(m, e);
    let t = m * pow2(e);
    let q = pow2(j);
    let rest = pow2((e - j) as nat);
    lemma_pow2_pos(j);
    lemma_pow2_adds(j, (e - j) as nat);
    assert(j + (e - j) as nat == e);
    let c = m * rest;
    assert(t == c * q + 0) by (nonlinear_arith)
        requires
            t == m * (q * rest),
            c == m * rest,
    ;
    lemma_fundamental_div_mod_converse(t as int, q as int, c as int, 0);
}

/// Encoding of a normalised magnitude: the exponent field counts from the
/// significand's own leading bit, so a significand of exactly 2^24 carries
/// into the next binade.
pub proof fn lemma_bits_of_scaled(m: nat, e: nat)
    requires
        m <= 0x100_0000,
        e > 0 ==> 0x80_0000 <= m,
    ensures
        bits_of_magnitude(m * pow2(e)) == e * 0x80_0000 + m,
    decreases e,
{
    lemma2_to64();
    if e == 0 {
        assert(m * 1 == m);
        if m == 0x100_0000 {
            reveal_with_fuel(bits_of_magnitude, 2);
        }
    } else {
        lemma_pow2_unfold(e);
        let rest = pow2((e - 1) as nat);
        let t = m * pow2(e);
        lemma_pow2_pos((e - 1) as nat);
        assert(t == 2 * (m * rest)) by (nonlinear_arith)
            requires
                t == m * (2 * rest),
        ;
        assert(m * rest >= m) by (nonlinear_arith)
            requires
                rest >= 1,
                m >= 0,
        ;
        assert(t / 2 == m * rest);
        lemma_bits_of_scaled(m, (e - 1) as nat);
    }
}

/// The magnitude that a normalised encoding stands for.
pub proof fn lemma_magnitude_of_bits(m: nat, e: nat)
    requires
        m <= 0x100_0000,
        e > 0 ==> 0x80_0000 <= m,
    ensures
        magnitude_of(e * 0x80_0000 + m) == m * pow2(e),
{
    lemma2_to64();
    let b = e * 0x80_0000 + m;
    if m < 0x80_0000 {
        assert(m * 1 == m);
    } else if m < 0x100_0000 {
        lemma_fundamental_div_mod_converse(
            b as int,
            0x80_0000,
            (e + 1) as int,
            (m - 0x80_0000) as int,
        );
    } else {
        lemma_fundamental_div_mod_converse(b as int, 0x80_0000, (e + 2) as int, 0);
        lemma_pow2_unfold(e + 1);
        let pe = pow2(e);
        assert(0x80_0000 * (2 * pe) == 0x100_0000 * pe) by (nonlinear_arith);
    }
}

/// A normalised magnitude reaches 2^128 exactly when its encoding reaches
/// that of infinity.
pub proof fn lemma_overflow_threshold(m: nat, e: nat)
    requires
        m <= 0x100_0000,
        e > 0 ==> 0x80_0000 <= m,
    ensures
        (m * pow2(e) >= pow2(277)) == (e * 0x80_0000 + m >= INFINITY_BITS),
{
    lemma2_to64();
    let pe = pow2(e);
    lemma_pow2_pos(e);
    lemma_pow2_adds(24, 253);
    lemma_pow2_adds(23, 254);
    if e >= 254 {
        if e > 254 {
            lemma_pow2_strictly_increases(254, e);
        }
        assert(m * pe >= 0x80_0000 * pow2(254)) by (nonlinear_arith)
            requires
                m >= 0x80_0000,
                pe >= pow2(254),
        ;
    } else if e == 253 {
        if m < 0x100_0000 {
            assert(m * pe < 0x100_0000 * pe) by (nonlinear_arith)
                requires
                    m < 0x100_0000,
                    pe > 0,
            ;
        }
    } else {
        lemma_pow2_strictly_increases(e, 253);
        assert(m * pe < 0x100_0000 * pow2(253)) by (nonlinear_arith)
            requires
                m <= 0x100_0000,
                0 < pe < pow2(253),
        ;
    }
}

/// What rounding to nearest means: the result is a multiple of the
/// spacing around `t` with at most 24 significant bits, it is at most half
/// a spacing away from `t`, and where it is exactly half a spacing away
/// it is the even multiple.
pub proof fn lemma_nearest_is_nearest(t: nat)
    ensures
        ({
            let q = quantum(t);
            let v = nearest(t);
            &&& q > 0
            &&& v % q == 0
            &&& v / q <= 0x100_0000
            &&& 2 * (v - t) <= q
            &&& 2 * (t - v) <= q
            &&& (2 * (v - t) == q || 2 * (t - v) == q) ==> (v / q) % 2 == 0
        }),
{
    lemma2_to64();
    let k = lemma_binade(t);
    let q = pow2(k);
    lemma_pow2_pos(k);
    lemma_pow2_adds(24, k);
    let f = t / q;
    let r = t % q;
    lemma_fundamental_div_mod(t as int, q as int);
    assert(f < 0x100_0000) by (nonlinear_arith)
        requires
            t == q * f + r,
            r >= 0,
            t < 0x100_0000 * q,
            q > 0,
    ;
    let v = nearest(t);
    let m = if v == f * q {
        f
    } else {
        f + 1
    };
    assert(v == m * q + 0);
    lemma_fundamental_div_mod_converse(v as int, q as int, m as int, 0);
    assert((f + 1) * q == f * q + q) by (nonlinear_arith);
    assert(f * q == q * f) by (nonlinear_arith);
}

/// No magnitude of at most 24 significant bits is nearer to `t` than what
/// `t` rounds to.
pub proof fn lemma_nearest_is_optimal(t: nat, m: nat, e: nat)
    requires
        m < 0x100_0000,
    ensures
        ({
            let u = m * pow2(e);
            let v = nearest(t);
            if v <= t {
                u <= v || u - t >= t - v
            } else {
                u >= v || t - u >= v - t
            }
        }),
{
    lemma2_to64();
    let k = lemma_binade(t);
    let q = pow2(k);
    lemma_pow2_pos(k);
    lemma_pow2_pos(e);
    lemma_pow2_adds(23, k);
    let f = t / q;
    let r = t % q;
    lemma_fundamental_div_mod(t as int, q as int);
    let low = f * q;
    let high = (f + 1) * q;
    assert(low == q * f && high == low + q) by (nonlinear_arith)
        requires
            low == f * q,
            high == (f + 1) * q,
    ;
    let u = m * pow2(e);
    // Between two neighbouring multiples of the spacing lies no such magnitude.
    if low < u < high {
        if e >= k {
            let c = m * pow2((e - k) as nat);
            lemma_pow2_adds((e - k) as nat, k);
            assert((e - k) as nat + k == e);
            assert(u == c * q) by (nonlinear_arith)
                requires
                    u == m * (pow2((e - k) as nat) * q),
                    c == m * pow2((e - k) as nat),
            ;
            assert(false) by (nonlinear_arith)
                requires
                    low == f * q,
                    high == low + q,
                    u == c * q,
                    low < u < high,
                    q > 0,
            ;
        } else {
            // Too fine a magnitude is too small to lie in this binade.
            lemma_pow2_adds(24, e);
            if e + 1 < k {
                lemma_pow2_strictly_increases(e + 1, k);
            }
            lemma_pow2_unfold(e + 1);
            assert(u < 0x80_0000 * q) by (nonlinear_arith)
                requires
                    u == m * pow2(e),
                    m < 0x100_0000,
                    2 * pow2(e) <= q,
                    pow2(e) > 0,
            ;
            assert(low >= 0x80_0000 * q) by (nonlinear_arith)
                requires
                    low == q * f,
                    t == q * f + r,
                    r < q,
                    t >= 0x80_0000 * q,
                    q > 0,
            ;
        }
    }
}

/// The encoding of a magnitude of at most 24 significant bits below 2^128
/// is that of a finite single with that magnitude.
pub proof fn lemma_encoding_of_magnitude(m: nat, e: nat)
    requires
        m <= 0x100_0000,
        e > 0 ==> 0x80_0000 <= m,
        m * pow2(e) < pow2(277),
    ensures
        bits_of_magnitude(m * pow2(e)) < INFINITY_BITS,
        magnitude_of(bits_of_magnitude(m * pow2(e))) == m * pow2(e),
{
    lemma_bits_of_scaled(m, e);
    lemma_overflow_threshold(m, e);
    lemma_magnitude_of_bits(m, e);
}

/// The value of a rounded single: it has the given sign, and its magnitude
/// is the exact magnitude rounded to nearest, or it is infinite where that
/// reaches 2^128.
pub proof fn lemma_rounded_value(negative: bool, t: nat)
    ensures
        !rounded(negative, t).is_nan(),
        rounded(negative, t).negative() == negative,
        nearest(t) < pow2(277) ==> rounded(negative, t).finite() && rounded(
            negative,
            t,
        ).magnitude() == nearest(t),
        nearest(t) >= pow2(277) ==> rounded(negative, t).is_infinite(),
{
    lemma2_to64();
    let k = lemma_binade(t);
    let q = pow2(k);
    lemma_pow2_pos(k);
    lemma_pow2_adds(23, k);
    lemma_nearest_is_nearest(t);
    let v = nearest(t);
    let m = v / q;
    lemma_fundamental_div_mod(v as int, q as int);
    assert(v == m * q) by (nonlinear_arith)
        requires
            v == q * m + 0,
    ;
    if k > 0 {
        // Less than half a spacing below the binade's lower end there is no multiple.
        assert(m >= 0x80_0000) by (nonlinear_arith)
            requires
                v == m * q,
                2 * (t - v) <= q,
                t >= 0x80_0000 * q,
                q > 0,
        ;
    }
    if v < pow2(277) {
        lemma_encoding_of_magnitude(m, k);
    }
}

/// Rounds the exact magnitude `n * 2^h` (in units of 2^-149) to a single of
/// the given sign.
pub(crate) fn round_to_single(negative: bool, n: u64, h: u32) -> (r: Single)
    requires
        0 < n < 0x8_0000_0000_0000,
        h <= 1024,
    ensures
        r == rounded(negative, (n * pow2(h as nat)) as nat),
{
    let sign: u32 = if negative { SIGN_BIT } else { 0 };
    if n < 0x100_0000 {
        let mut m: u64 = n;
        let mut e: u32 = h;
        while m < 0x80_0000 && e > 0
            invariant
                0 < m < 0x100_0000,
                e <= h,
                m * pow2(e as nat) == n * pow2(h as nat),
            decreases e,
        {
            proof {
                lemma_pow2_unfold(e as nat);
                let rest = pow2((e - 1) as nat);
                assert((m * 2) * rest == m * (2 * rest)) by (nonlinear_arith);
            }
            m = m * 2;
            e = e - 1;
        }
        proof {
            lemma_nearest_of_representable(m as nat, e as nat);
            lemma_bits_of_scaled(m as nat, e as nat);
            lemma_overflow_threshold(m as nat, e as nat);
        }
        if e >= 254 {
            Single { bits: INFINITY_BITS + sign }
        } else {
            Single { bits: e * 0x80_0000 + (m as u32) + sign }
        }
    } else {
        let mut p: u64 = 2;
        let mut s: u32 = 1;
        proof {
            lemma2_to64();
        }
        while n / p >= 0x100_0000
            invariant
                n < 0x8_0000_0000_0000,
                1 <= s <= 27,
                p >= 2,
                p == pow2(s as nat),
                0x80_0000 * p <= n,
            decreases 64 - s,
        {
            proof {
                lemma2_to64();
                lemma_pow2_unfold((s + 1) as nat);
                if s > 27 {
                    lemma_pow2_strictly_increases(27, s as nat);
                }
                lemma_fundamental_div_mod(n as int, p as int);
                assert(0x100_0000 * p <= n) by (nonlinear_arith)
                    requires
                        n == p * (n / p) + n % p,
                        n % p >= 0,
                        n / p >= 0x100_0000,
                        p > 0,
                ;
                assert(s < 27);
            }
            p = p * 2;
            s = s + 1;
        }
        let q: u64 = n / p;
        let rem: u64 = n % p;
        let half: u64 = p / 2;
        let m: u64 = if rem > half || (rem == half && q % 2 == 1) {
            q + 1
        } else {
            q
        };
        let e: u32 = h + s;
        let wide: u64 = (e as u64) * 0x80_0000 + m;
        proof {
            let t = (n * pow2(h as nat)) as nat;
            let ph = pow2(h as nat);
            let k = (s + h) as nat;
            lemma_pow2_pos(h as nat);
            lemma2_to64();
            lemma_pow2_unfold(s as nat);
            lemma_pow2_adds(s as nat, h as nat);
            lemma_pow2_adds(23, s as nat);
            lemma_pow2_adds(24, s as nat);
            lemma_pow2_adds((23 + s) as nat, h as nat);
            lemma_pow2_adds((24 + s) as nat, h as nat);
            lemma_fundamental_div_mod(n as int, p as int);
            assert(0x80_0000 <= q) by (nonlinear_arith)
                requires
                    n == p * q + rem,
                    rem < p,
                    0x80_0000 * p <= n,
                    p > 0,
            ;
            assert(n < 0x100_0000 * p) by (nonlinear_arith)
                requires
                    n == p * q + rem,
                    rem < p,
                    q < 0x100_0000,
            ;
            assert(pow2((23 + s) as nat) * ph <= t) by (nonlinear_arith)
                requires
                    pow2((23 + s) as nat) <= n,
                    t == n * ph,
                    ph > 0,
            ;
            assert(t < pow2((24 + s) as nat) * ph) by (nonlinear_arith)
                requires
                    n < pow2((24 + s) as nat),
                    t == n * ph,
                    ph > 0,
            ;
            assert(23 + k == (23 + s) as nat + h as nat);
            assert(24 + k == (24 + s) as nat + h as nat);
            lemma_quantum_in_binade(t, k);
            lemma_scaled_div_mod(n as nat, s as nat, h as nat);
            let big_q = pow2(k);
            let big_r = rem * ph;
            assert(big_q == p * ph);
            assert((2 * big_r < big_q) == (rem < half) && (2 * big_r == big_q) == (rem == half))
                by (nonlinear_arith)
                requires
                    big_r == rem * ph,
                    big_q == p * ph,
                    p == 2 * half,
                    ph > 0,
            ;
            assert(nearest(t) == m * pow2(k));
            lemma_bits_of_scaled(m as nat, k);
            lemma_overflow_threshold(m as nat, k);
        }
        if wide >= INFINITY_BITS as u64 {
            Single { bits: INFINITY_BITS + sign }
        } else {
            Single { bits: wide as u32 + sign }
        }
    }
}

/// The exact magnitude `t`, given in units of 2^-(149+j), rounded to 24
/// significant bits or to the spacing of the subnormals, whichever is
/// coarser.  The result is in units of 2^-149.
pub open spec fn nearest_at(t: nat, j: nat) -> nat {
    let q = if quantum(t) < pow2(j) {
        pow2(j)
    } else {
        quantum(t)
    };
    round_half_even(t, q) / pow2(j)
}

/// The single that results from a sign and the exact magnitude `t` in units
/// of 2^-(149+j).
pub open spec fn rounded_at(negative: bool, t: nat, j: nat) -> Single {
    let v = nearest_at(t, j);
    let m = if v >= pow2(277) {
        INFINITY_BITS as nat
    } else {
        bits_of_magnitude(v)
    };
    Single { bits: (m + if negative { SIGN_BIT as nat } else { 0 }) as u32 }
}

/// Every magnitude lies in a binade, or below the first one.
pub proof fn lemma_binade(t: nat) -> (k: nat)
    ensures
        t < pow2(24 + k),
        k > 0 ==> pow2(23 + k) <= t,
        quantum(t) == pow2(k),
    decreases t,
{
    lemma2_to64();
    if t < 0x100_0000 {
        0
    } else {
        let k1 = lemma_binade(t / 2);
        lemma_pow2_unfold(24 + k1 + 1);
        lemma_pow2_unfold(23 + k1 + 1);
        lemma_pow2_unfold(k1 + 1);
        k1 + 1
    }
}

/// Rounding to a multiple of `q * c` commutes with scaling by `c`.
pub proof fn lemma_round_half_even_scaled(n: nat, g: nat, h: nat)
    ensures
        round_half_even(n * pow2(h), pow2(g + h)) == round_half_even(n, pow2(g)) * pow2(h),
{
    let ph = pow2(h);
    let pg = pow2(g);
    lemma_pow2_pos(h);
    lemma_pow2_pos(g);
    lemma_pow2_adds(g, h);
    lemma_scaled_div_mod(n, g, h);
    let f = n / pg;
    let r = n % pg;
    assert((2 * (r * ph) < pg * ph) == (2 * r < pg) && (2 * (r * ph) == pg * ph) == (2 * r == pg))
        by (nonlinear_arith)
        requires
            ph > 0,
    ;
    assert(f * (pg * ph) == (f * pg) * ph && (f + 1) * (pg * ph) == ((f + 1) * pg) * ph)
        by (nonlinear_arith);
}

/// Scaling a magnitude and its unit together does not change what it
/// rounds to.
pub proof fn lemma_nearest_at_scaled(n: nat, j: nat, h: nat)
    ensures
        nearest_at(n * pow2(h), j + h) == nearest_at(n, j),
{
    lemma2_to64();
    let ph = pow2(h);
    let pj = pow2(j);
    let t = n * ph;
    lemma_pow2_pos(h);
    lemma_pow2_pos(j);
    lemma_pow2_adds(j, h);
    let k = lemma_binade(n);
    // The spacing used for `n`, as an exponent.
    let g = if k < j {
        j
    } else {
        k
    };
    if k < j {
        lemma_pow2_strictly_increases(k, j);
    } else if j < k {
        lemma_pow2_strictly_increases(j, k);
    }
    assert(pow2(g) == if quantum(n) < pj { pj } else { quantum(n) });
    // The spacing used for `t` is that of `n`, scaled.
    lemma_pow2_adds(g, h);
    if k > 0 {
        lemma_pow2_adds(23 + k, h);
        lemma_pow2_adds(24 + k, h);
        lemma_pow2_adds(k, h);
        assert(pow2(23 + k) * ph <= t < pow2(24 + k) * ph) by (nonlinear_arith)
            requires
                pow2(23 + k) <= n < pow2(24 + k),
                t == n * ph,
                ph > 0,
        ;
        assert(23 + (k + h) == 23 + k + h && 24 + (k + h) == 24 + k + h);
        lemma_quantum_in_binade(t, k + h);
        if k + h < j + h {
            lemma_pow2_strictly_increases(k + h, j + h);
        } else if j + h < k + h {
            lemma_pow2_strictly_increases(j + h, k + h);
        }
    } else {
        let low = lemma_quantum_of_multiple(n, h);
        if low < j + h {
            lemma_pow2_strictly_increases(low, j + h);
        }
    }
    assert(pow2(g + h) == if quantum(t) < pow2(j + h) { pow2(j + h) } else { quantum(t) });
    lemma_round_half_even_scaled(n, g, h);
    // Both roundings are multiples of the unit; dividing it out cancels the scale.
    let v = round_half_even(n, pow2(g));
    lemma_round_half_even_multiple(n, g, j);
    let c = v / pj;
    assert(v == c * pj);
    assert(v * ph == c * (pj * ph)) by (nonlinear_arith)
        requires
            v == c * pj,
    ;
    assert(pj * ph > 0) by (nonlinear_arith)
        requires
            pj > 0,
            ph > 0,
    ;
    lemma_fundamental_div_mod_converse((v * ph) as int, (pj * ph) as int, c as int, 0);
}

/// What rounds to a multiple of `2^g` is a multiple of every smaller power
/// of two.
pub proof fn lemma_round_half_even_multiple(n: nat, g: nat, j: nat)
    requires
        j <= g,
    ensures
        round_half_even(n, pow2(g)) == (round_half_even(n, pow2(g)) / pow2(j)) * pow2(j),
{
    let pj = pow2(j);
    let rest = pow2((g - j) as nat);
    lemma_pow2_pos(j);
    lemma_pow2_adds((g - j) as nat, j);
    assert((g - j) as nat + j == g);
    let v = round_half_even(n, pow2(g));
    let m = v / pow2(g);
    let f = n / pow2(g);
    assert(v == f * (rest * pj) || v == (f + 1) * (rest * pj));
    let c = if v == f * (rest * pj) {
        f * rest
    } else {
        (f + 1) * rest
    };
    assert(v == c * pj) by (nonlinear_arith)
        requires
            v == f * (rest * pj) || v == (f + 1) * (rest * pj),
            c == if v == f * (rest * pj) {
                f * rest
            } else {
                (f + 1) * rest
            },
    ;
    lemma_fundamental_div_mod_converse(v as int, pj as int, c as int, 0);
}

/// With no fractional bits, rounding at a unit is plain rounding.
pub proof fn lemma_nearest_at_unit(t: nat)
    ensures
        nearest_at(t, 0) == nearest(t),
{
    lemma2_to64();
    let k = lemma_binade(t);
    lemma_pow2_pos(k);
}

/// Rounds the exact magnitude `n / 2^j` (in units of 2^-149) to a single of
/// the given sign.
pub(crate) fn round_fraction(negative: bool, n: u64, j: u32) -> (r: Single)
    requires
        0 < n < 0x1_0000_0000_0000,
        1 <= j <= 1024,
    ensures
        r == rounded_at(negative, n as nat, j as nat),
{
    let sign: u32 = if negative { SIGN_BIT } else { 0 };
    // Spacing of the singles around `n`, as an exponent.
    let mut s: u32 = 0;
    let mut p: u64 = 1;
    proof {
        lemma2_to64();
    }
    while n / p >= 0x100_0000
        invariant
            n < 0x1_0000_0000_0000,
            0 <= s <= 24,
            p >= 1,
            p == pow2(s as nat),
            s > 0 ==> 0x80_0000 * p <= n,
        decreases 64 - s,
    {
        proof {
            lemma2_to64();
            lemma_pow2_unfold((s + 1) as nat);
            if s > 24 {
                lemma_pow2_strictly_increases(24, s as nat);
            }
            lemma_fundamental_div_mod(n as int, p as int);
            assert(0x100_0000 * p <= n) by (nonlinear_arith)
                requires
                    n == p * (n / p) + n % p,
                    n % p >= 0,
                    n / p >= 0x100_0000,
                    p > 0,
            ;
            assert(s < 24);
        }
        p = p * 2;
        s = s + 1;
    }
    proof {
        lemma_fundamental_div_mod(n as int, p as int);
        assert(n < 0x100_0000 * p) by (nonlinear_arith)
            requires
                n == p * (n / p) + n % p,
                n % p < p,
                n / p < 0x100_0000,
                p > 0,
        ;
        lemma_pow2_adds(23, s as nat);
        lemma_pow2_adds(24, s as nat);
        lemma_quantum_in_binade(n as nat, s as nat);
    }
    let g: u32 = if s < j { j } else { s };
    proof {
        if s < j {
            lemma_pow2_strictly_increases(s as nat, j as nat);
        } else if j < s {
            lemma_pow2_strictly_increases(j as nat, s as nat);
        }
        lemma_pow2_pos(j as nat);
        lemma_pow2_pos(g as nat);
        lemma_round_half_even_multiple(n as nat, g as nat, j as nat);
    }
    if g >= 50 {
        proof {
            lemma2_to64_rest();
            lemma_pow2_unfold(g as nat);
            if g > 50 {
                lemma_pow2_strictly_increases(49, (g - 1) as nat);
            }
            let pg = pow2(g as nat);
            lemma_fundamental_div_mod_converse(n as int, pg as int, 0, n as int);
            assert(round_half_even(n as nat, pg) == 0) by (nonlinear_arith)
                requires
                    round_half_even(n as nat, pg) == 0 * pg,
            ;
            assert(nearest_at(n as nat, j as nat) == 0);
            assert(0 < pow2(277)) by {
                lemma_pow2_pos(277);
            }
            reveal_with_fuel(bits_of_magnitude, 1);
        }
        return Single { bits: sign };
    }
    proof {
        lemma2_to64_rest();
        if g < 49 {
            lemma_pow2_strictly_increases(g as nat, 49);
        }
        lemma_u64_shl_is_mul(1, g as u64);
        lemma_pow2_unfold(g as nat);
    }
    let pg: u64 = 1u64 << (g as u64);
    let q: u64 = n / pg;
    let rem: u64 = n % pg;
    let half: u64 = pg / 2;
    let m: u64 = if rem > half || (rem == half && q % 2 == 1) {
        q + 1
    } else {
        q
    };
    let e: u32 = g - j;
    proof {
        assert(round_half_even(n as nat, pg as nat) == m * pg);
        // The rounded magnitude in units of 2^-149.
        let rest = pow2(e as nat);
        lemma_pow2_adds(e as nat, j as nat);
        assert(e as nat + j as nat == g as nat);
        let pj = pow2(j as nat);
        assert(m * pg == (m * rest) * pj) by (nonlinear_arith)
            requires
                pg == rest * pj,
        ;
        lemma_fundamental_div_mod_converse((m * pg) as int, pj as int, (m * rest) as int, 0);
        assert(nearest_at(n as nat, j as nat) == m * rest);
        // Its encoding.
        lemma_fundamental_div_mod(n as int, pg as int);
        assert(q < 0x100_0000) by (nonlinear_arith)
            requires
                n == pg * q + rem,
                n < 0x100_0000 * p,
                p <= pg,
                rem >= 0,
                pg > 0,
        ;
        if e > 0 {
            assert(q >= 0x80_0000) by (nonlinear_arith)
                requires
                    n == pg * q + rem,
                    0x80_0000 * pg <= n,
                    rem < pg,
                    pg > 0,
            ;
        }
        lemma_bits_of_scaled(m as nat, e as nat);
        lemma_overflow_threshold(m as nat, e as nat);
    }
    Single { bits: e * 0x80_0000 + (m as u32) + sign }
}

/// What rounding at a unit means: the result, back in the units of `t`, is
/// a multiple of the spacing in force, at most half a spacing away from
/// `t`, and the even multiple where it is exactly half a spacing away.
pub proof fn lemma_nearest_at_is_nearest(t: nat, j: nat)
    ensures
        ({
            let q = if quantum(t) < pow2(j) { pow2(j) } else { quantum(t) };
            let w = nearest_at(t, j) * pow2(j);
            &&& q > 0
            &&& w % q == 0
            &&& 2 * (w - t) <= q
            &&& 2 * (t - w) <= q
            &&& (2 * (w - t) == q || 2 * (t - w) == q) ==> (w / q) % 2 == 0
        }),
{
    let k = lemma_binade(t);
    let g = if k < j { j } else { k };
    if k < j {
        lemma_pow2_strictly_increases(k, j);
    } else if j < k {
        lemma_pow2_strictly_increases(j, k);
    }
    let q = pow2(g);
    lemma_pow2_pos(g);
    lemma_pow2_pos(j);
    lemma_round_half_even_multiple(t, g, j);
    let w = round_half_even(t, q);
    assert(w == nearest_at(t, j) * pow2(j));
    let f = t / q;
    lemma_fundamental_div_mod(t as int, q as int);
    let m = if w == f * q { f } else { f + 1 };
    assert(w == m * q + 0);
    lemma_fundamental_div_mod_converse(w as int, q as int, m as int, 0);
    assert((f + 1) * q == f * q + q) by (nonlinear_arith);
    assert(f * q == q * f) by (nonlinear_arith);
}

/// The value of a single rounded at a unit: it has the given sign, and its
/// magnitude is the exact magnitude rounded to nearest, or it is infinite
/// where that reaches 2^128.
pub proof fn lemma_rounded_at_value(negative: bool, t: nat, j: nat)
    ensures
        !rounded_at(negative, t, j).is_nan(),
        rounded_at(negative, t, j).negative() == negative,
        nearest_at(t, j) < pow2(277) ==> rounded_at(negative, t, j).finite() && rounded_at(
            negative,
            t,
            j,
        ).magnitude() == nearest_at(t, j),
        nearest_at(t, j) >= pow2(277) ==> rounded_at(negative, t, j).is_infinite(),
{
    lemma2_to64();
    let k = lemma_binade(t);
    let g = if k < j { j } else { k };
    if k < j {
        lemma_pow2_strictly_increases(k, j);
    } else if j < k {
        lemma_pow2_strictly_increases(j, k);
    }
    let q = pow2(g);
    let pj = pow2(j);
    let rest = pow2((g - j) as nat);
    lemma_pow2_pos(g);
    lemma_pow2_pos(j);
    lemma_pow2_pos(k);
    lemma_pow2_adds((g - j) as nat, j);
    lemma_pow2_adds(23, k);
    lemma_pow2_adds(24, k);
    assert((g - j) as nat + j == g);
    let f = t / q;
    lemma_fundamental_div_mod(t as int, q as int);
    let w = round_half_even(t, q);
    let m = if w == f * q { f } else { f + 1 };
    assert(f < 0x100_0000) by (nonlinear_arith)
        requires
            t == q * f + t % q,
            t % q >= 0,
            t < 0x100_0000 * pow2(k),
            pow2(k) <= q,
            q > 0,
    ;
    if g > j {
        assert(f >= 0x80_0000) by (nonlinear_arith)
            requires
                t == q * f + t % q,
                t % q < q,
                t >= 0x80_0000 * q,
                q > 0,
        ;
    }
    assert(w == (m * rest) * pj + 0) by (nonlinear_arith)
        requires
            w == m * q,
            q == rest * pj,
    ;
    lemma_fundamental_div_mod_converse(w as int, pj as int, (m * rest) as int, 0);
    assert(nearest_at(t, j) == m * rest);
    if m * rest < pow2(277) {
        lemma_encoding_of_magnitude(m, (g - j) as nat);
    }
}

} // verus!
