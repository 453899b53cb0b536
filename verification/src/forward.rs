//! Forward kinematics: from six joint angles to the pose of the tool
//! flange.
//!
//! The model needs the sines and cosines of seven angles, and one arc
//! tangent.  No standard fixes the value of a sine to the last bit, so
//! they are not computed here.  [`forward`] takes them as functions.  The
//! two steps around them can be had alone: [`angles`] says of which angles
//! the sines and cosines are needed, and [`pose`] takes their values and
//! does the rest.
use crate::bounds::{
    lemma_difference_within,
    lemma_product_within,
    lemma_root_within,
    lemma_sum_of_non_negative,
    lemma_sum_within,
    lemma_within_larger,
    within,
};
use crate::convention::{internal_angle, internal_joints, lemma_direction_convention, to_internal};
use crate::elementary::{bounded_by_four, bounded_by_one, single_valued, single_valued_of_two};
use crate::linear::{matrix_product, multiply, product_entry, Matrix3, Vector3};
use crate::multiplication::lemma_product_of_finite;
use crate::single::{Single, ONE_BITS};
use crate::types::{JointState, Parameters, Pose};
use vstd::arithmetic::power2::{lemma2_to64, lemma_pow2_adds, lemma_pow2_pos};
use vstd::prelude::*;

verus! {

/// The angles whose sines and cosines the forward model needs: the six
/// joint angles in the solver's convention, and the angle of the forearm
/// against the vertical, `θ2 + θ3 + ψ3`.
#[derive(Clone, Copy, Debug, PartialEq, Eq)]
pub struct ForwardAngles {
    pub joints: JointState,
    pub forearm: Single,
}

/// Sines and cosines of the angles in a [`ForwardAngles`].
#[derive(Clone, Copy, Debug, PartialEq, Eq)]
pub struct ForwardTrig {
    pub sin: [Single; 6],
    pub cos: [Single; 6],
    pub sin_forearm: Single,
    pub cos_forearm: Single,
}

/// The angles of the forward model for the joint state `qs`, where `psi3`
/// is the angle `atan2(a2, c3)` of the forearm's offset.
pub open spec fn angles_of(p: Parameters, qs: JointState, psi3: Single) -> ForwardAngles {
    let q = internal_joints(p, qs);
    ForwardAngles { joints: q, forearm: q.1.plus(q.2).plus(psi3) }
}

/// Length of the forearm from the elbow to the wrist centre: `√(a2² + c3²)`.
pub open spec fn forearm_length(p: Parameters) -> Single {
    p.a2.times(p.a2).plus(p.c3.times(p.c3)).square_root()
}

/// Position of the wrist centre.
///
/// In the vertical plane of the arm the wrist centre is at distance
/// `c2 sin θ2 + k sin(θ2 + θ3 + ψ3) + a1` from the first axis, offset
/// sideways by `b`, and at height `c2 cos θ2 + k cos(θ2 + θ3 + ψ3)` above
/// the shoulder; that plane is turned by `θ1`, and the shoulder is `c1`
/// above the base.
pub open spec fn wrist_centre_of(p: Parameters, t: ForwardTrig) -> Vector3 {
    let k = forearm_length(p);
    let reach = p.c2.times(t.sin[1]).plus(k.times(t.sin_forearm)).plus(p.a1);
    let side = p.b;
    let height = p.c2.times(t.cos[1]).plus(k.times(t.cos_forearm));
    [
        reach.times(t.cos[0]).minus(side.times(t.sin[0])),
        reach.times(t.sin[0]).plus(side.times(t.cos[0])),
        height.plus(p.c1),
    ]
}

/// Rotation from the base to the forearm, by the first three joints.
pub open spec fn arm_rotation_of(t: ForwardTrig) -> Matrix3 {
    let s1 = t.sin[0];
    let s2 = t.sin[1];
    let s3 = t.sin[2];
    let c1 = t.cos[0];
    let c2 = t.cos[1];
    let c3 = t.cos[2];
    [
        [
            c1.times(c2).times(c3).minus(c1.times(s2).times(s3)),
            s1.negated(),
            c1.times(c2).times(s3).plus(c1.times(s2).times(c3)),
        ],
        [
            s1.times(c2).times(c3).minus(s1.times(s2).times(s3)),
            c1,
            s1.times(c2).times(s3).plus(s1.times(s2).times(c3)),
        ],
        [
            s2.negated().times(c3).minus(c2.times(s3)),
            Single::spec_positive_zero(),
            s2.negated().times(s3).plus(c2.times(c3)),
        ],
    ]
}

/// Rotation from the forearm to the flange, by the three joints of the
/// wrist.
pub open spec fn wrist_rotation_of(t: ForwardTrig) -> Matrix3 {
    let s4 = t.sin[3];
    let s5 = t.sin[4];
    let s6 = t.sin[5];
    let c4 = t.cos[3];
    let c5 = t.cos[4];
    let c6 = t.cos[5];
    [
        [
            c4.times(c5).times(c6).minus(s4.times(s6)),
            c4.negated().times(c5).times(s6).minus(s4.times(c6)),
            c4.times(s5),
        ],
        [
            s4.times(c5).times(c6).plus(c4.times(s6)),
            s4.negated().times(c5).times(s6).plus(c4.times(c6)),
            s4.times(s5),
        ],
        [s5.negated().times(c6), s5.times(s6), c5],
    ]
}

/// The pose of the flange: the rotation of the arm times that of the
/// wrist, and the wrist centre moved by `c4` along the flange's own third
/// axis.
pub open spec fn pose_of(p: Parameters, t: ForwardTrig) -> Pose {
    let r = matrix_product(arm_rotation_of(t), wrist_rotation_of(t));
    let c = wrist_centre_of(p, t);
    Pose {
        rotation: r,
        translation: [
            c[0].plus(p.c4.times(r[0][2])),
            c[1].plus(p.c4.times(r[1][2])),
            c[2].plus(p.c4.times(r[2][2])),
        ],
    }
}

/// The angles whose sines and cosines [`pose`] needs, for the joint state
/// `qs` in the manufacturer's convention.  `psi3` is `atan2(a2, c3)`.
pub fn angles(p: &Parameters, qs: &JointState, psi3: Single) -> (r: ForwardAngles)
    ensures
        r == angles_of(*p, *qs, psi3),
{
    let q = to_internal(p, qs);
    ForwardAngles { joints: q, forearm: q.1.add(q.2).add(psi3) }
}

/// Computes the position of the wrist centre.
pub fn wrist_centre(p: &Parameters, t: &ForwardTrig) -> (r: Vector3)
    ensures
        r == wrist_centre_of(*p, *t),
{
    let k = p.a2.mul(p.a2).add(p.c3.mul(p.c3)).sqrt();
    let reach = p.c2.mul(t.sin[1]).add(k.mul(t.sin_forearm)).add(p.a1);
    let side = p.b;
    let height = p.c2.mul(t.cos[1]).add(k.mul(t.cos_forearm));
    [
        reach.mul(t.cos[0]).sub(side.mul(t.sin[0])),
        reach.mul(t.sin[0]).add(side.mul(t.cos[0])),
        height.add(p.c1),
    ]
}

/// Computes the rotation from the base to the forearm.
pub fn arm_rotation(t: &ForwardTrig) -> (r: Matrix3)
    ensures
        r == arm_rotation_of(*t),
{
    let s1 = t.sin[0];
    let s2 = t.sin[1];
    let s3 = t.sin[2];
    let c1 = t.cos[0];
    let c2 = t.cos[1];
    let c3 = t.cos[2];
    [
        [
            c1.mul(c2).mul(c3).sub(c1.mul(s2).mul(s3)),
            s1.neg(),
            c1.mul(c2).mul(s3).add(c1.mul(s2).mul(c3)),
        ],
        [
            s1.mul(c2).mul(c3).sub(s1.mul(s2).mul(s3)),
            c1,
            s1.mul(c2).mul(s3).add(s1.mul(s2).mul(c3)),
        ],
        [
            s2.neg().mul(c3).sub(c2.mul(s3)),
            Single::positive_zero(),
            s2.neg().mul(s3).add(c2.mul(c3)),
        ],
    ]
}

/// Computes the rotation from the forearm to the flange.
pub fn wrist_rotation(t: &ForwardTrig) -> (r: Matrix3)
    ensures
        r == wrist_rotation_of(*t),
{
    let s4 = t.sin[3];
    let s5 = t.sin[4];
    let s6 = t.sin[5];
    let c4 = t.cos[3];
    let c5 = t.cos[4];
    let c6 = t.cos[5];
    [
        [
            c4.mul(c5).mul(c6).sub(s4.mul(s6)),
            c4.neg().mul(c5).mul(s6).sub(s4.mul(c6)),
            c4.mul(s5),
        ],
        [
            s4.mul(c5).mul(c6).add(c4.mul(s6)),
            s4.neg().mul(c5).mul(s6).add(c4.mul(c6)),
            s4.mul(s5),
        ],
        [s5.neg().mul(c6), s5.mul(s6), c5],
    ]
}

/// The pose of the flange, from the sines and cosines of the angles that
/// [`angles`] gave.
pub fn pose(p: &Parameters, t: &ForwardTrig) -> (r: Pose)
    ensures
        r == pose_of(*p, *t),
{
    let r_0c = arm_rotation(t);
    let r_ce = wrist_rotation(t);
    let r = multiply(&r_0c, &r_ce);
    let c = wrist_centre(p, t);
    Pose {
        rotation: r,
        translation: [
            c[0].add(p.c4.mul(r[0][2])),
            c[1].add(p.c4.mul(r[1][2])),
            c[2].add(p.c4.mul(r[2][2])),
        ],
    }
}

/// Whether `t` holds values that `sin` and `cos` may return for the
/// angles in `a`.
pub open spec fn evaluates<S: Fn(Single) -> Single, C: Fn(Single) -> Single>(
    sin: S,
    cos: C,
    a: ForwardAngles,
    t: ForwardTrig,
) -> bool {
    &&& forall|i: int| 0 <= i < 6 ==> sin.ensures((#[trigger] a.joints@[i],), t.sin[i])
    &&& forall|i: int| 0 <= i < 6 ==> cos.ensures((#[trigger] a.joints@[i],), t.cos[i])
    &&& sin.ensures((a.forearm,), t.sin_forearm)
    &&& cos.ensures((a.forearm,), t.cos_forearm)
}

/// Whether `r` is the pose of the joint state `qs` where the elementary
/// functions return `psi3` for the forearm's offset and the values in `t`
/// for the sines and cosines.
pub open spec fn forward_with<
    S: Fn(Single) -> Single,
    C: Fn(Single) -> Single,
    A: Fn(Single, Single) -> Single,
>(p: Parameters, qs: JointState, sin: S, cos: C, atan2: A, psi3: Single, t: ForwardTrig, r: Pose) -> bool {
    &&& atan2.ensures((p.a2, p.c3), psi3)
    &&& evaluates(sin, cos, angles_of(p, qs, psi3), t)
    &&& r == pose_of(p, t)
}

/// Evaluates the sines and cosines of the angles in `a`.
pub fn evaluate<S: Fn(Single) -> Single, C: Fn(Single) -> Single>(
    sin: &S,
    cos: &C,
    a: &ForwardAngles,
) -> (t: ForwardTrig)
    requires
        forall|x: Single| sin.requires((x,)),
        forall|x: Single| cos.requires((x,)),
    ensures
        evaluates(*sin, *cos, *a, t),
{
    let q = &a.joints;
    ForwardTrig {
        sin: [sin(q.0), sin(q.1), sin(q.2), sin(q.3), sin(q.4), sin(q.5)],
        cos: [cos(q.0), cos(q.1), cos(q.2), cos(q.3), cos(q.4), cos(q.5)],
        sin_forearm: sin(a.forearm),
        cos_forearm: cos(a.forearm),
    }
}

/// The pose of the tool flange for the joint state `qs`, with the sine,
/// the cosine and the arc tangent that the caller brings.
///
/// Whatever those return, the pose is the one that [`pose_of`] gives for
/// the values they returned on the angles of [`angles_of`].  It is finite
/// for a manipulator of modest lengths and joint angles and offsets of
/// modest size, if the functions are bounded as a sine, a cosine and an
/// arc tangent are.
pub fn forward<S: Fn(Single) -> Single, C: Fn(Single) -> Single, A: Fn(Single, Single) -> Single>(
    p: &Parameters,
    qs: &JointState,
    sin: &S,
    cos: &C,
    atan2: &A,
) -> (r: Pose)
    requires
        forall|x: Single| sin.requires((x,)),
        forall|x: Single| cos.requires((x,)),
        forall|y: Single, x: Single| atan2.requires((y, x)),
    ensures
        exists|psi3: Single, t: ForwardTrig|
            forward_with(*p, *qs, *sin, *cos, *atan2, psi3, t, r),
        modest(*p) && modest_angles(*p, *qs) && bounded_by_one(*sin) && bounded_by_one(*cos)
            && bounded_by_four(*atan2) ==> r.finite(),
{
    let psi3 = atan2(p.a2, p.c3);
    let a = angles(p, qs, psi3);
    let t = evaluate(sin, cos, &a);
    let r = pose(p, &t);
    assert(forward_with(*p, *qs, *sin, *cos, *atan2, psi3, t, r));
    proof {
        if modest(*p) && modest_angles(*p, *qs) && bounded_by_one(*sin) && bounded_by_one(*cos)
            && bounded_by_four(*atan2) {
            lemma_angles_are_finite(*p, *qs, psi3);
            assert forall|i: int| 0 <= i < 6 implies within(#[trigger] t.sin[i], 149) by {
                assert(sin.ensures((a.joints@[i],), t.sin[i]));
            }
            assert forall|i: int| 0 <= i < 6 implies within(#[trigger] t.cos[i], 149) by {
                assert(cos.ensures((a.joints@[i],), t.cos[i]));
            }
            lemma_pose_is_finite(*p, t);
        }
    }
    r
}

/// With elementary functions that have one value for each argument, the
/// joint state determines the pose.
pub proof fn lemma_forward_is_determined<
    S: Fn(Single) -> Single,
    C: Fn(Single) -> Single,
    A: Fn(Single, Single) -> Single,
>(
    p: Parameters,
    qs: JointState,
    sin: S,
    cos: C,
    atan2: A,
    psi3: Single,
    t: ForwardTrig,
    r: Pose,
    psi3_again: Single,
    t_again: ForwardTrig,
    r_again: Pose,
)
    requires
        single_valued(sin),
        single_valued(cos),
        single_valued_of_two(atan2),
        forward_with(p, qs, sin, cos, atan2, psi3, t, r),
        forward_with(p, qs, sin, cos, atan2, psi3_again, t_again, r_again),
    ensures
        r == r_again,
{
    assert(psi3 == psi3_again);
    let a = angles_of(p, qs, psi3);
    assert forall|i: int| 0 <= i < 6 implies t.sin[i] == t_again.sin[i] by {
        assert(sin.ensures((a.joints@[i],), t.sin[i]));
        assert(sin.ensures((a.joints@[i],), t_again.sin[i]));
    }
    assert forall|i: int| 0 <= i < 6 implies t.cos[i] == t_again.cos[i] by {
        assert(cos.ensures((a.joints@[i],), t.cos[i]));
        assert(cos.ensures((a.joints@[i],), t_again.cos[i]));
    }
    assert(t.sin =~= t_again.sin);
    assert(t.cos =~= t_again.cos);
    assert(t == t_again);
}

/// Two geometries that differ only in the direction of rotation of some
/// joints give the same poses to joint states that differ only in the sign
/// of those joints' angles: whatever pose one may have, the other may
/// have too.
pub proof fn lemma_reversed_directions_give_the_same_pose<
    S: Fn(Single) -> Single,
    C: Fn(Single) -> Single,
    A: Fn(Single, Single) -> Single,
>(
    pa: Parameters,
    qa: JointState,
    pb: Parameters,
    qb: JointState,
    sin: S,
    cos: C,
    atan2: A,
    psi3: Single,
    t: ForwardTrig,
    r: Pose,
)
    requires
        pa.a1 == pb.a1,
        pa.a2 == pb.a2,
        pa.b == pb.b,
        pa.c1 == pb.c1,
        pa.c2 == pb.c2,
        pa.c3 == pb.c3,
        pa.c4 == pb.c4,
        pa.offsets == pb.offsets,
        forall|i: int|
            0 <= i < 6 ==> {
                ||| (#[trigger] pb.sign_corrections@[i] == pa.sign_corrections@[i] && qb@[i]
                    == qa@[i])
                ||| (pb.sign_corrections@[i] == pa.sign_corrections@[i].flipped() && qb@[i]
                    == qa@[i].negated())
            },
        forward_with(pa, qa, sin, cos, atan2, psi3, t, r),
    ensures
        forward_with(pb, qb, sin, cos, atan2, psi3, t, r),
{
    lemma_direction_convention(pa, qa, pb, qb);
}

/// Whether every joint angle of `qs` and every offset of `p` is at most
/// 2^121 in magnitude.
pub open spec fn modest_angles(p: Parameters, qs: JointState) -> bool {
    &&& forall|i: int| 0 <= i < 6 ==> within(#[trigger] qs@[i], 270)
    &&& forall|i: int| 0 <= i < 6 ==> within(#[trigger] p.offsets[i], 270)
}

/// The angles whose sines and cosines are needed are finite for joint
/// angles and offsets of modest size and a finite `psi3`.
pub proof fn lemma_angles_are_finite(p: Parameters, qs: JointState, psi3: Single)
    requires
        modest_angles(p, qs),
        within(psi3, 151),
    ensures
        forall|i: int| 0 <= i < 6 ==> (#[trigger] angles_of(p, qs, psi3).joints@[i]).finite(),
        angles_of(p, qs, psi3).forearm.finite(),
{
    lemma2_to64();
    lemma_pow2_adds(23, 126);
    assert(ONE_BITS / 0x80_0000 == 127 && ONE_BITS % 0x80_0000 == 0);
    let q = internal_joints(p, qs);
    assert forall|i: int| 0 <= i < 6 implies within(#[trigger] q@[i], 271) by {
        let d = p.sign_corrections@[i];
        assert(within(d.multiplier(), 149));
        assert(within(qs@[i], 270));
        assert(within(p.offsets[i], 270));
        lemma_product_within(qs@[i], d.multiplier(), 270, 149);
        lemma_difference_within(qs@[i].times(d.multiplier()), p.offsets[i], 270);
        assert(q@[i] == internal_angle(qs@[i], d, p.offsets[i]));
    }
    assert(within(q@[1], 271) && within(q@[2], 271));
    lemma_sum_within(q.1, q.2, 271);
    lemma_within_larger(psi3, 151, 272);
    lemma_sum_within(q.1.plus(q.2), psi3, 272);
}

/// Whether every length of `p` is at most 2^60 in magnitude.
pub open spec fn modest(p: Parameters) -> bool {
    &&& within(p.a1, 209)
    &&& within(p.a2, 209)
    &&& within(p.b, 209)
    &&& within(p.c1, 209)
    &&& within(p.c2, 209)
    &&& within(p.c3, 209)
    &&& within(p.c4, 209)
}

/// Whether every sine and cosine in `t` is at most one in magnitude.
pub open spec fn at_most_one(t: ForwardTrig) -> bool {
    &&& forall|i: int| 0 <= i < 6 ==> within(#[trigger] t.sin[i], 149)
    &&& forall|i: int| 0 <= i < 6 ==> within(#[trigger] t.cos[i], 149)
    &&& within(t.sin_forearm, 149)
    &&& within(t.cos_forearm, 149)
}

/// Whether every entry of `m` is within `e`.
pub open spec fn entries_within(m: Matrix3, e: nat) -> bool {
    forall|i: int, j: int| 0 <= i < 3 && 0 <= j < 3 ==> within(#[trigger] m[i][j], e)
}

/// `a * b * c` is at most one in magnitude if its factors are.
proof fn lemma_product_of_three(a: Single, b: Single, c: Single)
    requires
        within(a, 149),
        within(b, 149),
        within(c, 149),
    ensures
        within(a.times(b), 149),
        within(a.times(b).times(c), 149),
{
    lemma_product_within(a, b, 149, 149);
    lemma_product_within(a.times(b), c, 149, 149);
}

/// `a * b * c ± d * e * f` is at most two in magnitude if its factors are at
/// most one.
proof fn lemma_two_products_of_three(a: Single, b: Single, c: Single, d: Single, e: Single, f: Single)
    requires
        within(a, 149),
        within(b, 149),
        within(c, 149),
        within(d, 149),
        within(e, 149),
        within(f, 149),
    ensures
        within(a.times(b).times(c).plus(d.times(e).times(f)), 150),
        within(a.times(b).times(c).minus(d.times(e).times(f)), 150),
{
    lemma_product_of_three(a, b, c);
    lemma_product_of_three(d, e, f);
    lemma_sum_within(a.times(b).times(c), d.times(e).times(f), 149);
    lemma_difference_within(a.times(b).times(c), d.times(e).times(f), 149);
}

/// `a * b ± c * d` is at most two in magnitude if its factors are at most
/// one.
proof fn lemma_two_products(a: Single, b: Single, c: Single, d: Single)
    requires
        within(a, 149),
        within(b, 149),
        within(c, 149),
        within(d, 149),
    ensures
        within(a.times(b), 149),
        within(a.times(b).plus(c.times(d)), 150),
        within(a.times(b).minus(c.times(d)), 150),
{
    lemma_product_within(a, b, 149, 149);
    lemma_product_within(c, d, 149, 149);
    lemma_sum_within(a.times(b), c.times(d), 149);
    lemma_difference_within(a.times(b), c.times(d), 149);
}

/// `a * b * c ± d * e` is at most two in magnitude if its factors are at
/// most one.
proof fn lemma_three_and_two(a: Single, b: Single, c: Single, d: Single, e: Single)
    requires
        within(a, 149),
        within(b, 149),
        within(c, 149),
        within(d, 149),
        within(e, 149),
    ensures
        within(a.times(b).times(c).plus(d.times(e)), 150),
        within(a.times(b).times(c).minus(d.times(e)), 150),
{
    lemma_product_of_three(a, b, c);
    lemma_product_within(d, e, 149, 149);
    lemma_sum_within(a.times(b).times(c), d.times(e), 149);
    lemma_difference_within(a.times(b).times(c), d.times(e), 149);
}

/// The entries of the arm's rotation are at most two in magnitude.
pub proof fn lemma_arm_rotation_within(t: ForwardTrig)
    requires
        at_most_one(t),
    ensures
        entries_within(arm_rotation_of(t), 150),
{
    let s1 = t.sin[0];
    let s2 = t.sin[1];
    let s3 = t.sin[2];
    let c1 = t.cos[0];
    let c2 = t.cos[1];
    let c3 = t.cos[2];
    lemma_two_products_of_three(c1, c2, c3, c1, s2, s3);
    lemma_two_products_of_three(c1, c2, s3, c1, s2, c3);
    lemma_two_products_of_three(s1, c2, c3, s1, s2, s3);
    lemma_two_products_of_three(s1, c2, s3, s1, s2, c3);
    lemma_two_products(s2.negated(), c3, c2, s3);
    lemma_two_products(s2.negated(), s3, c2, c3);
    lemma_within_larger(s1.negated(), 149, 150);
    lemma_within_larger(c1, 149, 150);
    lemma_pow2_pos(150);
    let m = arm_rotation_of(t);
    assert forall|i: int, j: int| 0 <= i < 3 && 0 <= j < 3 implies within(
        #[trigger] m[i][j],
        150,
    ) by {
        if i == 0 {
            assert(m[0][0] == c1.times(c2).times(c3).minus(c1.times(s2).times(s3)));
            assert(m[0][1] == s1.negated());
            assert(m[0][2] == c1.times(c2).times(s3).plus(c1.times(s2).times(c3)));
        } else if i == 1 {
            assert(m[1][0] == s1.times(c2).times(c3).minus(s1.times(s2).times(s3)));
            assert(m[1][1] == c1);
            assert(m[1][2] == s1.times(c2).times(s3).plus(s1.times(s2).times(c3)));
        } else {
            assert(m[2][0] == s2.negated().times(c3).minus(c2.times(s3)));
            assert(m[2][1] == Single::spec_positive_zero());
            assert(m[2][2] == s2.negated().times(s3).plus(c2.times(c3)));
        }
    }
}

/// The entries of the wrist's rotation are at most two in magnitude.
pub proof fn lemma_wrist_rotation_within(t: ForwardTrig)
    requires
        at_most_one(t),
    ensures
        entries_within(wrist_rotation_of(t), 150),
{
    let s4 = t.sin[3];
    let s5 = t.sin[4];
    let s6 = t.sin[5];
    let c4 = t.cos[3];
    let c5 = t.cos[4];
    let c6 = t.cos[5];
    lemma_three_and_two(c4, c5, c6, s4, s6);
    lemma_three_and_two(c4.negated(), c5, s6, s4, c6);
    lemma_three_and_two(s4, c5, c6, c4, s6);
    lemma_three_and_two(s4.negated(), c5, s6, c4, c6);
    lemma_two_products(c4, s5, s4, s5);
    lemma_two_products(s4, s5, s5.negated(), c6);
    lemma_two_products(s5.negated(), c6, s5, s6);
    lemma_two_products(s5, s6, s5, s6);
    lemma_within_larger(c4.times(s5), 149, 150);
    lemma_within_larger(s4.times(s5), 149, 150);
    lemma_within_larger(s5.negated().times(c6), 149, 150);
    lemma_within_larger(s5.times(s6), 149, 150);
    lemma_within_larger(c5, 149, 150);
    let m = wrist_rotation_of(t);
    assert forall|i: int, j: int| 0 <= i < 3 && 0 <= j < 3 implies within(
        #[trigger] m[i][j],
        150,
    ) by {
        if i == 0 {
            assert(m[0][0] == c4.times(c5).times(c6).minus(s4.times(s6)));
            assert(m[0][1] == c4.negated().times(c5).times(s6).minus(s4.times(c6)));
            assert(m[0][2] == c4.times(s5));
        } else if i == 1 {
            assert(m[1][0] == s4.times(c5).times(c6).plus(c4.times(s6)));
            assert(m[1][1] == s4.negated().times(c5).times(s6).plus(c4.times(c6)));
            assert(m[1][2] == s4.times(s5));
        } else {
            assert(m[2][0] == s5.negated().times(c6));
            assert(m[2][1] == s5.times(s6));
            assert(m[2][2] == c5);
        }
    }
}

/// An entry of the product of two matrices with entries at most two in
/// magnitude is at most sixteen.
proof fn lemma_product_entry_within(a: Matrix3, b: Matrix3, i: int, j: int)
    requires
        entries_within(a, 150),
        entries_within(b, 150),
        0 <= i < 3,
        0 <= j < 3,
    ensures
        within(product_entry(a, b, i, j), 153),
{
    let x0 = a[i][0].times(b[0][j]);
    let x1 = a[i][1].times(b[1][j]);
    let x2 = a[i][2].times(b[2][j]);
    lemma_product_within(a[i][0], b[0][j], 150, 150);
    lemma_product_within(a[i][1], b[1][j], 150, 150);
    lemma_product_within(a[i][2], b[2][j], 150, 150);
    lemma_sum_within(x0, x1, 151);
    lemma_within_larger(x2, 151, 152);
    lemma_sum_within(x0.plus(x1), x2, 152);
}

/// The entries of the product of two matrices with entries at most two in
/// magnitude are at most sixteen.
pub proof fn lemma_matrix_product_within(a: Matrix3, b: Matrix3)
    requires
        entries_within(a, 150),
        entries_within(b, 150),
    ensures
        entries_within(matrix_product(a, b), 153),
{
    let m = matrix_product(a, b);
    assert forall|i: int, j: int| 0 <= i < 3 && 0 <= j < 3 implies within(
        #[trigger] m[i][j],
        153,
    ) by {
        lemma_product_entry_within(a, b, i, j);
        assert(m[i][j] == product_entry(a, b, i, j));
    }
}

/// The wrist centre of a manipulator of modest lengths is finite.
pub proof fn lemma_wrist_centre_within(p: Parameters, t: ForwardTrig)
    requires
        modest(p),
        at_most_one(t),
    ensures
        forall|i: int| 0 <= i < 3 ==> within(#[trigger] wrist_centre_of(p, t)[i], 213),
{
    // The forearm: the root of a sum of two squares.
    let a2_2 = p.a2.times(p.a2);
    let c3_2 = p.c3.times(p.c3);
    lemma_product_within(p.a2, p.a2, 209, 209);
    lemma_product_within(p.c3, p.c3, 209, 209);
    lemma_product_of_finite(p.a2, p.a2);
    lemma_product_of_finite(p.c3, p.c3);
    lemma_sum_within(a2_2, c3_2, 269);
    lemma_sum_of_non_negative(a2_2, c3_2);
    lemma_root_within(a2_2.plus(c3_2), 270, 210);
    let k = forearm_length(p);
    assert(within(k, 210));
    // Reach and height of the wrist centre in the plane of the arm.
    let upper_reach = p.c2.times(t.sin[1]);
    let fore_reach = k.times(t.sin_forearm);
    lemma_product_within(p.c2, t.sin[1], 209, 149);
    lemma_product_within(k, t.sin_forearm, 210, 149);
    lemma_within_larger(upper_reach, 209, 210);
    lemma_sum_within(upper_reach, fore_reach, 210);
    lemma_within_larger(p.a1, 209, 211);
    lemma_sum_within(upper_reach.plus(fore_reach), p.a1, 211);
    let reach = upper_reach.plus(fore_reach).plus(p.a1);
    let upper_height = p.c2.times(t.cos[1]);
    let fore_height = k.times(t.cos_forearm);
    lemma_product_within(p.c2, t.cos[1], 209, 149);
    lemma_product_within(k, t.cos_forearm, 210, 149);
    lemma_within_larger(upper_height, 209, 210);
    lemma_sum_within(upper_height, fore_height, 210);
    let height = upper_height.plus(fore_height);
    // The plane turned by the first joint.
    lemma_product_within(reach, t.cos[0], 212, 149);
    lemma_product_within(reach, t.sin[0], 212, 149);
    lemma_product_within(p.b, t.sin[0], 209, 149);
    lemma_product_within(p.b, t.cos[0], 209, 149);
    lemma_within_larger(p.b.times(t.sin[0]), 209, 212);
    lemma_within_larger(p.b.times(t.cos[0]), 209, 212);
    lemma_difference_within(reach.times(t.cos[0]), p.b.times(t.sin[0]), 212);
    lemma_sum_within(reach.times(t.sin[0]), p.b.times(t.cos[0]), 212);
    lemma_within_larger(p.c1, 209, 211);
    lemma_sum_within(height, p.c1, 211);
    lemma_within_larger(height.plus(p.c1), 212, 213);
    let c = wrist_centre_of(p, t);
    assert(c[0] == reach.times(t.cos[0]).minus(p.b.times(t.sin[0])));
    assert(c[1] == reach.times(t.sin[0]).plus(p.b.times(t.cos[0])));
    assert(c[2] == height.plus(p.c1));
}

/// A manipulator of modest lengths, no length beyond 2^60, has a finite
/// pose for whatever sines and cosines are at most one in magnitude: no
/// entry of the rotation is beyond sixteen, no component of the
/// translation beyond 2^65.
pub proof fn lemma_pose_is_finite(p: Parameters, t: ForwardTrig)
    requires
        modest(p),
        at_most_one(t),
    ensures
        entries_within(pose_of(p, t).rotation, 153),
        forall|i: int| 0 <= i < 3 ==> within(#[trigger] pose_of(p, t).translation[i], 214),
{
    lemma_arm_rotation_within(t);
    lemma_wrist_rotation_within(t);
    lemma_matrix_product_within(arm_rotation_of(t), wrist_rotation_of(t));
    lemma_wrist_centre_within(p, t);
    let r = matrix_product(arm_rotation_of(t), wrist_rotation_of(t));
    let c = wrist_centre_of(p, t);
    let u = pose_of(p, t).translation;
    assert forall|i: int| 0 <= i < 3 implies within(#[trigger] u[i], 214) by {
        assert(within(r[i][2], 153));
        assert(within(c[i], 213));
        lemma_product_within(p.c4, r[i][2], 209, 153);
        lemma_sum_within(c[i], p.c4.times(r[i][2]), 213);
        assert(u[i] == c[i].plus(p.c4.times(r[i][2])));
    }
}

} // verus!
