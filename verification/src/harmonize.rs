//! Angles brought into one turn about zero.
use crate::addition::{difference, lemma_sum_of_finite, sum};
use crate::rounding::lemma_nearest_of_representable;
use crate::single::{lemma_magnitude_increases, Single, PI_BITS, TWO_PI_BITS};
use vstd::arithmetic::power2::{lemma2_to64, lemma_pow2_adds, lemma_pow2_pos, pow2};
use vstd::prelude::*;

verus! {

/// An angle brought into the half-open turn `(-π, π]` by at most one whole
/// turn: lowered by 2π if it is above π, raised by 2π if it is at or below
/// -π, and left alone otherwise.  A NaN compares with nothing and is
/// left alone.
pub open spec fn harmonized(q: Single) -> Single {
    if Single::spec_pi().less(q) {
        difference(q, Single::spec_two_pi())
    } else if q.at_most(Single::spec_pi().negated()) {
        sum(q, Single::spec_two_pi())
    } else {
        q
    }
}

/// Brings one angle into `(-π, π]` by at most one whole turn.
pub fn harmonize(q: Single) -> (r: Single)
    ensures
        r == harmonized(q),
{
    if q.gt(Single::pi()) {
        q.sub(Single::two_pi())
    } else if q.le(Single::pi().neg()) {
        q.add(Single::two_pi())
    } else {
        q
    }
}

/// Half a turn, the value of the single nearest to π, times 2^149.
pub open spec fn half_turn() -> int {
    Single::spec_pi().scaled()
}

/// An angle within a turn and a half of zero is brought into `(-π, π]`,
/// and that without rounding: it is left alone, or changed by exactly 2π
/// as single precision has it.
pub proof fn lemma_harmonized_in_range(q: Single)
    requires
        q.finite(),
        -3 * half_turn() < q.scaled() <= 3 * half_turn(),
    ensures
        harmonized(q).finite(),
        -half_turn() < harmonized(q).scaled() <= half_turn(),
        harmonized(q).scaled() == q.scaled() || harmonized(q).scaled() == q.scaled() - 2
            * half_turn() || harmonized(q).scaled() == q.scaled() + 2 * half_turn(),
{
    lemma2_to64();
    let pi = Single::spec_pi();
    let two_pi = Single::spec_two_pi();
    let unit = pow2(127);
    lemma_pow2_pos(127);
    lemma_pow2_adds(1, 127);
    // Both constants are whole multiples of 2^-22.
    assert(PI_BITS / 0x80_0000 == 128 && PI_BITS % 0x80_0000 == 0x49_0FDB);
    assert(TWO_PI_BITS / 0x80_0000 == 129 && TWO_PI_BITS % 0x80_0000 == 0x49_0FDB);
    assert(pi.magnitude() == 0xC9_0FDB * unit);
    assert(two_pi.magnitude() == 0xC9_0FDB * pow2(128));
    assert(two_pi.magnitude() == 2 * 0xC9_0FDB * unit) by (nonlinear_arith)
        requires
            two_pi.magnitude() == 0xC9_0FDB * (2 * unit),
    ;
    let h = half_turn();
    assert(h == 0xC9_0FDB * unit);
    assert(h > 0) by (nonlinear_arith)
        requires
            h == 0xC9_0FDB * unit,
            unit > 0,
    ;
    if pi.less(q) || q.at_most(pi.negated()) {
        // So is the angle: its magnitude is at least that of π.
        let mb = q.magnitude_bits();
        if mb < PI_BITS {
            lemma_magnitude_increases(mb, PI_BITS as nat);
        }
        assert(mb >= PI_BITS);
        let sig = q.significand();
        let e = q.shift();
        assert(e >= 127);
        lemma_pow2_adds((e - 127) as nat, 127);
        let c = sig * pow2((e - 127) as nat);
        assert(q.magnitude() == c * unit) by (nonlinear_arith)
            requires
                q.magnitude() == sig * (pow2((e - 127) as nat) * unit),
                c == sig * pow2((e - 127) as nat),
        ;
        assert(0xC9_0FDB <= c < 3 * 0xC9_0FDB + 1) by (nonlinear_arith)
            requires
                h == 0xC9_0FDB * unit,
                q.magnitude() == c * unit,
                h <= q.magnitude() <= 3 * h,
                unit > 0,
        ;
        // The exact result has at most 24 significant bits.
        let addend = if pi.less(q) {
            two_pi.negated()
        } else {
            two_pi
        };
        let s = q.scaled() + addend.scaled();
        let m = (if c < 2 * 0xC9_0FDB { 2 * 0xC9_0FDB - c } else { c - 2 * 0xC9_0FDB }) as nat;
        let t = (if s < 0 { -s } else { s }) as nat;
        assert(t == m * unit) by (nonlinear_arith)
            requires
                t == if s < 0 { -s } else { s },
                s == c * unit - 2 * 0xC9_0FDB * unit || s == 2 * 0xC9_0FDB * unit - c * unit,
                m == if c < 2 * 0xC9_0FDB { 2 * 0xC9_0FDB - c } else { c - 2 * 0xC9_0FDB },
                unit > 0,
        ;
        lemma_nearest_of_representable(m, 127);
        lemma_pow2_adds(24, 127);
        lemma_pow2_adds(151, 126);
        lemma_pow2_pos(126);
        assert(m * unit < pow2(277)) by (nonlinear_arith)
            requires
                m < 0x100_0000,
                unit > 0,
                pow2(277) == (0x100_0000 * unit) * pow2(126),
                pow2(126) >= 1,
        ;
        lemma_sum_of_finite(q, addend);
        reveal(sum);
        assert(harmonized(q) == sum(q, addend));
        assert(sum(q, addend).scaled() == s);
        assert(-h < s <= h) by (nonlinear_arith)
            requires
                h == 0xC9_0FDB * unit,
                s == c * unit - 2 * 0xC9_0FDB * unit || s == 2 * 0xC9_0FDB * unit - c * unit,
                s == q.scaled() - 2 * h || s == q.scaled() + 2 * h,
                -3 * h < q.scaled() <= 3 * h,
                (s == q.scaled() - 2 * h) ==> q.scaled() > h,
                (s == q.scaled() + 2 * h) ==> q.scaled() <= -h,
        ;
    }
}

} // verus!
