//! Inverse kinematics: from a pose of the tool flange to the eight sets of
//! joint angles that reach it.
//!
//! The solution is closed-form and branches three times: the shoulder
//! may face the wrist centre or turn its back to it, the elbow may be up or
//! down, and the wrist may be flipped.  Angles come from arc tangents and
//! arc cosines, which are not computed here: [`inverse`] takes them as
//! functions, with the sine and the cosine.  It works in five steps, which
//! can be had alone, the elementary functions evaluated in between:
//!
//! 1. [`arm_arguments`] gives the arguments of the arm's angles;
//! 2. [`arm_branches`] combines those angles into four arms;
//! 3. for each arm, [`wrist_bend`] gives the argument of the wrist's bend;
//! 4. for each arm, [`wrist_request`] gives the arguments of the wrist's
//!    two other angles, by the formulas for a bent or a straight wrist;
//! 5. [`solutions`] lays out the eight joint states.
//!
//! A pose out of reach leads to the square root of a negative number or the
//! arc cosine of a number beyond one: the angles of that branch are then
//! NaN, and nothing else marks it.
use crate::addition::sum;
use crate::bounds::{
    lemma_difference_within,
    lemma_product_within,
    lemma_sum_within,
    lemma_within_larger,
    within,
};
use crate::convention::{manufacturer_angle, manufacturer_joints, to_manufacturer};
use crate::elementary::{single_valued, single_valued_of_two};
use crate::linear::{cross, dot, inner, outer, Vector3};
use crate::multiplication::product;
use crate::single::{Single, ONE_BITS, PI_BITS};
use crate::types::{JointState, Parameters, Pose, RotationDirection};
use vstd::arithmetic::power2::{lemma2_to64, lemma_pow2_adds, lemma_pow2_strictly_increases, pow2};
use vstd::prelude::*;

verus! {

/// Encoding of the angle, 10^-6, below which the wrist counts as straight.
pub const STRAIGHT_WRIST_BITS: u32 = 0x3586_37BD;

/// The arguments `y` and `x` of an arc tangent `atan2(y, x)`.
#[derive(Clone, Copy, Debug, PartialEq, Eq, Structural)]
pub struct Planar {
    pub y: Single,
    pub x: Single,
}

/// Arguments of the nine angles that fix the arm.  Those of the shoulder
/// and the elbow are cosines, the others are pairs for an arc tangent.
/// `front` is the arm that faces the wrist centre, `back` the one that
/// reaches it over its shoulder.
#[derive(Clone, Copy, Debug, PartialEq, Eq, Structural)]
pub struct ArmArguments {
    pub heading: Planar,
    pub lateral: Planar,
    pub elevation_front: Planar,
    pub elevation_back: Planar,
    pub forearm_offset: Planar,
    pub shoulder_front: Single,
    pub shoulder_back: Single,
    pub elbow_front: Single,
    pub elbow_back: Single,
}

/// The nine angles that fix the arm, each the arc tangent or arc cosine of
/// the argument of the same name.
#[derive(Clone, Copy, Debug, PartialEq, Eq, Structural)]
pub struct ArmAngles {
    pub heading: Single,
    pub lateral: Single,
    pub elevation_front: Single,
    pub elevation_back: Single,
    pub forearm_offset: Single,
    pub shoulder_front: Single,
    pub shoulder_back: Single,
    pub elbow_front: Single,
    pub elbow_back: Single,
}

/// The first three joint angles of one branch, in the solver's convention.
#[derive(Clone, Copy, Debug, PartialEq, Eq, Structural)]
pub struct ArmBranch {
    pub theta1: Single,
    pub theta2: Single,
    pub theta3: Single,
}

/// Sines and cosines of `θ1` and of `θ2 + θ3` of one arm.
#[derive(Clone, Copy, Debug, PartialEq, Eq, Structural)]
pub struct ArmTrig {
    pub sin1: Single,
    pub cos1: Single,
    pub sin23: Single,
    pub cos23: Single,
}

/// Arguments of the wrist's fourth and sixth angle.
#[derive(Clone, Copy, Debug, PartialEq, Eq, Structural)]
pub enum WristRequest {
    /// The wrist is bent: both angles can be told apart.
    Bent { theta4: Planar, theta6: Planar },
    /// The wrist is straight, its fourth and sixth axis in line: only
    /// their sum shows in the pose.  The fourth angle is zero and the
    /// sixth takes all.
    Straight { theta6: Planar },
}

/// The last three joint angles of one branch, in the solver's convention.
#[derive(Clone, Copy, Debug, PartialEq, Eq, Structural)]
pub struct WristBranch {
    pub theta4: Single,
    pub theta5: Single,
    pub theta6: Single,
}

/// The wrist centre: the flange moved back by `c4` along its own third
/// axis.
pub open spec fn wrist_centre_of(p: Parameters, pose: Pose) -> Vector3 {
    [
        pose.translation[0].minus(p.c4.times(pose.rotation[0][2])),
        pose.translation[1].minus(p.c4.times(pose.rotation[1][2])),
        pose.translation[2].minus(p.c4.times(pose.rotation[2][2])),
    ]
}

/// The arguments of the arm's angles.
///
/// With `c` the wrist centre, `nx1 = √(cx² + cy² - b²) - a1` is its
/// distance from the second axis for the arm that faces it, and
/// `nx1 + 2 a1` for the one that does not.  Each of the two, with the
/// height `cz - c1`, gives a triangle of sides `c2`, `k = √(a2² + c3²)` and
/// the distance `s` from shoulder to wrist centre; the law of cosines
/// gives the cosines of its angles at the shoulder and at the elbow.
pub open spec fn arm_arguments_of(p: Parameters, pose: Pose) -> ArmArguments {
    let c = wrist_centre_of(p, pose);
    let two = Single::spec_two();
    let nx1 = c[0].times(c[0]).plus(c[1].times(c[1])).minus(p.b.times(p.b)).square_root().minus(
        p.a1,
    );
    let rise = c[2].minus(p.c1);
    let nx2 = nx1.plus(two.times(p.a1));
    let s1_2 = nx1.times(nx1).plus(rise.times(rise));
    let s2_2 = nx2.times(nx2).plus(rise.times(rise));
    let kappa_2 = p.a2.times(p.a2).plus(p.c3.times(p.c3));
    let c2_2 = p.c2.times(p.c2);
    let s1 = s1_2.square_root();
    let s2 = s2_2.square_root();
    let elbow_scale = two.times(p.c2).times(kappa_2.square_root());
    ArmArguments {
        heading: Planar { y: c[1], x: c[0] },
        lateral: Planar { y: p.b, x: nx1.plus(p.a1) },
        elevation_front: Planar { y: nx1, x: rise },
        elevation_back: Planar { y: nx2, x: rise },
        forearm_offset: Planar { y: p.a2, x: p.c3 },
        shoulder_front: s1_2.plus(c2_2).minus(kappa_2).over(two.times(s1).times(p.c2)),
        shoulder_back: s2_2.plus(c2_2).minus(kappa_2).over(two.times(s2).times(p.c2)),
        elbow_front: s1_2.minus(c2_2).minus(kappa_2).over(elbow_scale),
        elbow_back: s2_2.minus(c2_2).minus(kappa_2).over(elbow_scale),
    }
}

/// The four arms, in the order front elbow one way, front the other, back
/// one way, back the other.
pub open spec fn arm_branches_of(a: ArmAngles) -> [ArmBranch; 4] {
    let theta1_front = a.heading.minus(a.lateral);
    let theta1_back = a.heading.plus(a.lateral).minus(Single::spec_pi());
    [
        ArmBranch {
            theta1: theta1_front,
            theta2: a.shoulder_front.negated().plus(a.elevation_front),
            theta3: a.elbow_front.minus(a.forearm_offset),
        },
        ArmBranch {
            theta1: theta1_front,
            theta2: a.shoulder_front.plus(a.elevation_front),
            theta3: a.elbow_front.negated().minus(a.forearm_offset),
        },
        ArmBranch {
            theta1: theta1_back,
            theta2: a.shoulder_back.negated().minus(a.elevation_back),
            theta3: a.elbow_back.minus(a.forearm_offset),
        },
        ArmBranch {
            theta1: theta1_back,
            theta2: a.shoulder_back.minus(a.elevation_back),
            theta3: a.elbow_back.negated().minus(a.forearm_offset),
        },
    ]
}

/// The third axis of the flange, as seen from the forearm, along the
/// forearm: the cosine of the wrist's bend.
pub open spec fn bend_cosine(pose: Pose, t: ArmTrig) -> Single {
    let r = pose.rotation;
    r[0][2].times(t.sin23).times(t.cos1).plus(r[1][2].times(t.sin23).times(t.sin1)).plus(
        r[2][2].times(t.cos23),
    )
}

/// Arguments of the wrist's bend `θ5`: its sine, taken positive, and its
/// cosine.
pub open spec fn wrist_bend_of(pose: Pose, t: ArmTrig) -> Planar {
    let m = bend_cosine(pose, t);
    Planar { y: Single::spec_one().minus(m.times(m)).square_root(), x: m }
}

/// Whether a wrist bent by `theta5` counts as straight: the bend is less
/// than 10^-6 either way.  A bend that is NaN does not.
pub open spec fn is_straight(theta5: Single) -> bool {
    theta5.absolute().less(Single { bits: STRAIGHT_WRIST_BITS })
}

/// Arguments of `θ4` and `θ6` of a bent wrist.
pub open spec fn bent_wrist_of(pose: Pose, t: ArmTrig) -> WristRequest {
    let r = pose.rotation;
    WristRequest::Bent {
        theta4: Planar {
            y: r[1][2].times(t.cos1).minus(r[0][2].times(t.sin1)),
            x: r[0][2].times(t.cos23).times(t.cos1).plus(r[1][2].times(t.cos23).times(t.sin1))
                .minus(r[2][2].times(t.sin23)),
        },
        theta6: Planar {
            y: r[0][1].times(t.sin23).times(t.cos1).plus(r[1][1].times(t.sin23).times(t.sin1))
                .plus(r[2][1].times(t.cos23)),
            x: r[0][0].negated().times(t.sin23).times(t.cos1).minus(
                r[1][0].times(t.sin23).times(t.sin1),
            ).minus(r[2][0].times(t.cos23)),
        },
    }
}

/// Arguments of `θ6` of a straight wrist.
///
/// With `θ4` and `θ5` zero the frame before the sixth joint has the
/// flange's third axis for its third and the direction `(-sin θ1, cos θ1, 0)`
/// of the second joint's axis for its second; `θ6` is the angle of the
/// flange's first axis in that frame.
pub open spec fn straight_wrist_of(pose: Pose, t: ArmTrig) -> WristRequest {
    let r = pose.rotation;
    let xe: Vector3 = [r[0][0], r[1][0], r[2][0]];
    let ze: Vector3 = [r[0][2], r[1][2], r[2][2]];
    let yc: Vector3 = [t.sin1.negated(), t.cos1, Single::spec_positive_zero()];
    let xc = cross(yc, ze);
    WristRequest::Straight { theta6: Planar { y: dot(yc, xe), x: dot(xc, xe) } }
}

/// Arguments of `θ4` and `θ6`, by the bend `theta5`.
pub open spec fn wrist_request_of(pose: Pose, t: ArmTrig, theta5: Single) -> WristRequest {
    if is_straight(theta5) {
        straight_wrist_of(pose, t)
    } else {
        bent_wrist_of(pose, t)
    }
}

/// The other wrist that holds the flange the same way: turned half a turn
/// about the fourth axis, bent the other way, and turned back half a turn
/// about the sixth.
pub open spec fn flipped(w: WristBranch) -> WristBranch {
    WristBranch {
        theta4: w.theta4.plus(Single::spec_pi()),
        theta5: w.theta5.negated(),
        theta6: w.theta6.minus(Single::spec_pi()),
    }
}

/// The joint state of an arm and a wrist, in the manufacturer's
/// convention.
pub open spec fn solution_of(p: Parameters, a: ArmBranch, w: WristBranch) -> JointState {
    manufacturer_joints(p, JointState(a.theta1, a.theta2, a.theta3, w.theta4, w.theta5, w.theta6))
}

/// The eight joint states: the four arms with their wrists, then the same
/// four arms with the wrists flipped.
pub open spec fn solutions_of(p: Parameters, arms: [ArmBranch; 4], wrists: [WristBranch; 4]) -> Seq<
    JointState,
> {
    Seq::new(
        8,
        |i: int|
            if i < 4 {
                solution_of(p, arms[i], wrists[i])
            } else {
                solution_of(p, arms[i - 4], flipped(wrists[i - 4]))
            },
    )
}

/// Computes the wrist centre of a pose.
pub fn wrist_centre(p: &Parameters, pose: &Pose) -> (r: Vector3)
    ensures
        r == wrist_centre_of(*p, *pose),
{
    [
        pose.translation[0].sub(p.c4.mul(pose.rotation[0][2])),
        pose.translation[1].sub(p.c4.mul(pose.rotation[1][2])),
        pose.translation[2].sub(p.c4.mul(pose.rotation[2][2])),
    ]
}

/// First step: the arguments of the arm's nine angles.
pub fn arm_arguments(p: &Parameters, pose: &Pose) -> (r: ArmArguments)
    ensures
        r == arm_arguments_of(*p, *pose),
{
    let c = wrist_centre(p, pose);
    let two = Single::two();
    let nx1 = c[0].mul(c[0]).add(c[1].mul(c[1])).sub(p.b.mul(p.b)).sqrt().sub(p.a1);
    let rise = c[2].sub(p.c1);
    let nx2 = nx1.add(two.mul(p.a1));
    let s1_2 = nx1.mul(nx1).add(rise.mul(rise));
    let s2_2 = nx2.mul(nx2).add(rise.mul(rise));
    let kappa_2 = p.a2.mul(p.a2).add(p.c3.mul(p.c3));
    let c2_2 = p.c2.mul(p.c2);
    let s1 = s1_2.sqrt();
    let s2 = s2_2.sqrt();
    let elbow_scale = two.mul(p.c2).mul(kappa_2.sqrt());
    ArmArguments {
        heading: Planar { y: c[1], x: c[0] },
        lateral: Planar { y: p.b, x: nx1.add(p.a1) },
        elevation_front: Planar { y: nx1, x: rise },
        elevation_back: Planar { y: nx2, x: rise },
        forearm_offset: Planar { y: p.a2, x: p.c3 },
        shoulder_front: s1_2.add(c2_2).sub(kappa_2).div(two.mul(s1).mul(p.c2)),
        shoulder_back: s2_2.add(c2_2).sub(kappa_2).div(two.mul(s2).mul(p.c2)),
        elbow_front: s1_2.sub(c2_2).sub(kappa_2).div(elbow_scale),
        elbow_back: s2_2.sub(c2_2).sub(kappa_2).div(elbow_scale),
    }
}

/// Second step: the four arms.
pub fn arm_branches(a: &ArmAngles) -> (r: [ArmBranch; 4])
    ensures
        r == arm_branches_of(*a),
{
    let theta1_front = a.heading.sub(a.lateral);
    let theta1_back = a.heading.add(a.lateral).sub(Single::pi());
    [
        ArmBranch {
            theta1: theta1_front,
            theta2: a.shoulder_front.neg().add(a.elevation_front),
            theta3: a.elbow_front.sub(a.forearm_offset),
        },
        ArmBranch {
            theta1: theta1_front,
            theta2: a.shoulder_front.add(a.elevation_front),
            theta3: a.elbow_front.neg().sub(a.forearm_offset),
        },
        ArmBranch {
            theta1: theta1_back,
            theta2: a.shoulder_back.neg().sub(a.elevation_back),
            theta3: a.elbow_back.sub(a.forearm_offset),
        },
        ArmBranch {
            theta1: theta1_back,
            theta2: a.shoulder_back.sub(a.elevation_back),
            theta3: a.elbow_back.neg().sub(a.forearm_offset),
        },
    ]
}

impl ArmBranch {
    /// The angle `θ2 + θ3` of the forearm.
    pub open spec fn forearm_of(self) -> Single {
        self.theta2.plus(self.theta3)
    }

    /// The angle `θ2 + θ3`, whose sine and cosine the wrist's angles need
    /// beside those of `θ1`.
    pub fn forearm(&self) -> (r: Single)
        ensures
            r == self.forearm_of(),
    {
        self.theta2.add(self.theta3)
    }
}

/// Third step: the arguments of the wrist's bend for one arm.
pub fn wrist_bend(pose: &Pose, t: &ArmTrig) -> (r: Planar)
    ensures
        r == wrist_bend_of(*pose, *t),
{
    let r = &pose.rotation;
    let m = r[0][2].mul(t.sin23).mul(t.cos1).add(r[1][2].mul(t.sin23).mul(t.sin1)).add(
        r[2][2].mul(t.cos23),
    );
    Planar { y: Single::one().sub(m.mul(m)).sqrt(), x: m }
}

/// Whether a wrist bent by `theta5` counts as straight.
pub fn wrist_is_straight(theta5: Single) -> (r: bool)
    ensures
        r == is_straight(theta5),
{
    theta5.abs().lt(Single { bits: STRAIGHT_WRIST_BITS })
}

/// Arguments of `θ4` and `θ6` of a bent wrist.
pub fn bent_wrist(pose: &Pose, t: &ArmTrig) -> (r: WristRequest)
    ensures
        r == bent_wrist_of(*pose, *t),
{
    let r = &pose.rotation;
    WristRequest::Bent {
        theta4: Planar {
            y: r[1][2].mul(t.cos1).sub(r[0][2].mul(t.sin1)),
            x: r[0][2].mul(t.cos23).mul(t.cos1).add(r[1][2].mul(t.cos23).mul(t.sin1)).sub(
                r[2][2].mul(t.sin23),
            ),
        },
        theta6: Planar {
            y: r[0][1].mul(t.sin23).mul(t.cos1).add(r[1][1].mul(t.sin23).mul(t.sin1)).add(
                r[2][1].mul(t.cos23),
            ),
            x: r[0][0].neg().mul(t.sin23).mul(t.cos1).sub(r[1][0].mul(t.sin23).mul(t.sin1)).sub(
                r[2][0].mul(t.cos23),
            ),
        },
    }
}

/// Arguments of `θ6` of a straight wrist.
pub fn straight_wrist(pose: &Pose, t: &ArmTrig) -> (r: WristRequest)
    ensures
        r == straight_wrist_of(*pose, *t),
{
    let r = &pose.rotation;
    let xe: Vector3 = [r[0][0], r[1][0], r[2][0]];
    let ze: Vector3 = [r[0][2], r[1][2], r[2][2]];
    let yc: Vector3 = [t.sin1.neg(), t.cos1, Single::positive_zero()];
    let xc = outer(&yc, &ze);
    WristRequest::Straight { theta6: Planar { y: inner(&yc, &xe), x: inner(&xc, &xe) } }
}

/// Fourth step: the arguments of the wrist's fourth and sixth angle for
/// one arm, by the formulas for a straight wrist if `theta5` is within
/// 10^-6 of zero, and by those for a bent wrist otherwise.
pub fn wrist_request(pose: &Pose, t: &ArmTrig, theta5: Single) -> (r: WristRequest)
    ensures
        r == wrist_request_of(*pose, *t, theta5),
        is_straight(theta5) <==> r is Straight,
{
    if wrist_is_straight(theta5) {
        straight_wrist(pose, t)
    } else {
        bent_wrist(pose, t)
    }
}

impl WristBranch {
    /// The flipped wrist.
    pub fn flip(&self) -> (r: WristBranch)
        ensures
            r == flipped(*self),
    {
        WristBranch {
            theta4: self.theta4.add(Single::pi()),
            theta5: self.theta5.neg(),
            theta6: self.theta6.sub(Single::pi()),
        }
    }
}

/// The joint state of an arm and a wrist, in the manufacturer's
/// convention.
pub fn solution(p: &Parameters, a: &ArmBranch, w: &WristBranch) -> (r: JointState)
    ensures
        r == solution_of(*p, *a, *w),
{
    let q = JointState(a.theta1, a.theta2, a.theta3, w.theta4, w.theta5, w.theta6);
    to_manufacturer(p, &q)
}

/// Fifth step: the eight joint states, in the manufacturer's convention.
/// There are always eight; one with an angle that is not finite is a
/// branch that does not reach the pose.
pub fn solutions(p: &Parameters, arms: &[ArmBranch; 4], wrists: &[WristBranch; 4]) -> (r: [JointState; 8])
    ensures
        r@ == solutions_of(*p, *arms, *wrists),
{
    let r = [
        solution(p, &arms[0], &wrists[0]),
        solution(p, &arms[1], &wrists[1]),
        solution(p, &arms[2], &wrists[2]),
        solution(p, &arms[3], &wrists[3]),
        solution(p, &arms[0], &wrists[0].flip()),
        solution(p, &arms[1], &wrists[1].flip()),
        solution(p, &arms[2], &wrists[2].flip()),
        solution(p, &arms[3], &wrists[3].flip()),
    ];
    assert(r@ =~= solutions_of(*p, *arms, *wrists));
    r
}

/// Whether `angles` holds values that `atan2` and `acos` may return for
/// the arguments in `args`.
pub open spec fn evaluates_arm<A: Fn(Single, Single) -> Single, C: Fn(Single) -> Single>(
    atan2: A,
    acos: C,
    args: ArmArguments,
    angles: ArmAngles,
) -> bool {
    &&& atan2.ensures((args.heading.y, args.heading.x), angles.heading)
    &&& atan2.ensures((args.lateral.y, args.lateral.x), angles.lateral)
    &&& atan2.ensures((args.elevation_front.y, args.elevation_front.x), angles.elevation_front)
    &&& atan2.ensures((args.elevation_back.y, args.elevation_back.x), angles.elevation_back)
    &&& atan2.ensures((args.forearm_offset.y, args.forearm_offset.x), angles.forearm_offset)
    &&& acos.ensures((args.shoulder_front,), angles.shoulder_front)
    &&& acos.ensures((args.shoulder_back,), angles.shoulder_back)
    &&& acos.ensures((args.elbow_front,), angles.elbow_front)
    &&& acos.ensures((args.elbow_back,), angles.elbow_back)
}

/// Whether `t` holds values that `sin` and `cos` may return for `θ1` and
/// `θ2 + θ3` of the arm `a`.
pub open spec fn evaluates_trig<S: Fn(Single) -> Single, C: Fn(Single) -> Single>(
    sin: S,
    cos: C,
    a: ArmBranch,
    t: ArmTrig,
) -> bool {
    &&& sin.ensures((a.theta1,), t.sin1)
    &&& cos.ensures((a.theta1,), t.cos1)
    &&& sin.ensures((a.forearm_of(),), t.sin23)
    &&& cos.ensures((a.forearm_of(),), t.cos23)
}

/// Whether `w` holds values that `atan2` may return for the wrist of the
/// arm with the sines and cosines `t`: its bend first, then its other two
/// angles by the formulas that the bend selects.  The fourth angle of a
/// straight wrist is zero.
pub open spec fn evaluates_wrist<A: Fn(Single, Single) -> Single>(
    atan2: A,
    pose: Pose,
    t: ArmTrig,
    w: WristBranch,
) -> bool {
    &&& atan2.ensures((wrist_bend_of(pose, t).y, wrist_bend_of(pose, t).x), w.theta5)
    &&& match wrist_request_of(pose, t, w.theta5) {
        WristRequest::Bent { theta4, theta6 } => {
            &&& atan2.ensures((theta4.y, theta4.x), w.theta4)
            &&& atan2.ensures((theta6.y, theta6.x), w.theta6)
        },
        WristRequest::Straight { theta6 } => {
            &&& w.theta4 == Single::spec_positive_zero()
            &&& atan2.ensures((theta6.y, theta6.x), w.theta6)
        },
    }
}

/// Whether `r` holds the eight joint states for `pose` where the
/// elementary functions return the arm's angles `angles`, the sines and
/// cosines `trigs` of the four arms and the wrists' angles `wrists`.
pub open spec fn inverse_with<
    S: Fn(Single) -> Single,
    C: Fn(Single) -> Single,
    A: Fn(Single, Single) -> Single,
    K: Fn(Single) -> Single,
>(
    p: Parameters,
    pose: Pose,
    sin: S,
    cos: C,
    atan2: A,
    acos: K,
    angles: ArmAngles,
    trigs: [ArmTrig; 4],
    wrists: [WristBranch; 4],
    r: [JointState; 8],
) -> bool {
    &&& evaluates_arm(atan2, acos, arm_arguments_of(p, pose), angles)
    &&& forall|i: int|
        0 <= i < 4 ==> evaluates_trig(sin, cos, arm_branches_of(angles)[i], #[trigger] trigs[i])
    &&& forall|i: int| 0 <= i < 4 ==> evaluates_wrist(atan2, pose, trigs[i], #[trigger] wrists[i])
    &&& r@ == solutions_of(p, arm_branches_of(angles), wrists)
}

/// Evaluates the arm's nine angles.
pub fn evaluate_arm<A: Fn(Single, Single) -> Single, C: Fn(Single) -> Single>(
    atan2: &A,
    acos: &C,
    args: &ArmArguments,
) -> (angles: ArmAngles)
    requires
        forall|y: Single, x: Single| atan2.requires((y, x)),
        forall|x: Single| acos.requires((x,)),
    ensures
        evaluates_arm(*atan2, *acos, *args, angles),
{
    ArmAngles {
        heading: atan2(args.heading.y, args.heading.x),
        lateral: atan2(args.lateral.y, args.lateral.x),
        elevation_front: atan2(args.elevation_front.y, args.elevation_front.x),
        elevation_back: atan2(args.elevation_back.y, args.elevation_back.x),
        forearm_offset: atan2(args.forearm_offset.y, args.forearm_offset.x),
        shoulder_front: acos(args.shoulder_front),
        shoulder_back: acos(args.shoulder_back),
        elbow_front: acos(args.elbow_front),
        elbow_back: acos(args.elbow_back),
    }
}

/// Evaluates the sines and cosines of one arm.
pub fn evaluate_trig<S: Fn(Single) -> Single, C: Fn(Single) -> Single>(
    sin: &S,
    cos: &C,
    a: &ArmBranch,
) -> (t: ArmTrig)
    requires
        forall|x: Single| sin.requires((x,)),
        forall|x: Single| cos.requires((x,)),
    ensures
        evaluates_trig(*sin, *cos, *a, t),
{
    let forearm = a.forearm();
    ArmTrig { sin1: sin(a.theta1), cos1: cos(a.theta1), sin23: sin(forearm), cos23: cos(forearm) }
}

/// Evaluates the three angles of the wrist of one arm.
pub fn evaluate_wrist<A: Fn(Single, Single) -> Single>(atan2: &A, pose: &Pose, t: &ArmTrig) -> (w:
    WristBranch)
    requires
        forall|y: Single, x: Single| atan2.requires((y, x)),
    ensures
        evaluates_wrist(*atan2, *pose, *t, w),
{
    let bend = wrist_bend(pose, t);
    let theta5 = atan2(bend.y, bend.x);
    match wrist_request(pose, t, theta5) {
        WristRequest::Bent { theta4, theta6 } => WristBranch {
            theta4: atan2(theta4.y, theta4.x),
            theta5,
            theta6: atan2(theta6.y, theta6.x),
        },
        WristRequest::Straight { theta6 } => WristBranch {
            theta4: Single::positive_zero(),
            theta5,
            theta6: atan2(theta6.y, theta6.x),
        },
    }
}

/// The eight joint states that reach `pose`, with the sine, the cosine,
/// the arc tangent and the arc cosine that the caller brings.
///
/// There are always eight.  Whatever the elementary functions return, the
/// joint states are those that [`solutions_of`] lays out for the values
/// they returned.
pub fn inverse<
    S: Fn(Single) -> Single,
    C: Fn(Single) -> Single,
    A: Fn(Single, Single) -> Single,
    K: Fn(Single) -> Single,
>(p: &Parameters, pose: &Pose, sin: &S, cos: &C, atan2: &A, acos: &K) -> (r: [JointState; 8])
    requires
        forall|x: Single| sin.requires((x,)),
        forall|x: Single| cos.requires((x,)),
        forall|y: Single, x: Single| atan2.requires((y, x)),
        forall|x: Single| acos.requires((x,)),
    ensures
        r@.len() == 8,
        exists|angles: ArmAngles, trigs: [ArmTrig; 4], wrists: [WristBranch; 4]|
            inverse_with(*p, *pose, *sin, *cos, *atan2, *acos, angles, trigs, wrists, r),
{
    let args = arm_arguments(p, pose);
    let angles = evaluate_arm(atan2, acos, &args);
    let arms = arm_branches(&angles);
    let trigs = [
        evaluate_trig(sin, cos, &arms[0]),
        evaluate_trig(sin, cos, &arms[1]),
        evaluate_trig(sin, cos, &arms[2]),
        evaluate_trig(sin, cos, &arms[3]),
    ];
    let wrists = [
        evaluate_wrist(atan2, pose, &trigs[0]),
        evaluate_wrist(atan2, pose, &trigs[1]),
        evaluate_wrist(atan2, pose, &trigs[2]),
        evaluate_wrist(atan2, pose, &trigs[3]),
    ];
    let r = solutions(p, &arms, &wrists);
    assert(inverse_with(*p, *pose, *sin, *cos, *atan2, *acos, angles, trigs, wrists, r));
    r
}

/// With elementary functions that have one value for each argument, the
/// pose determines the eight joint states.
pub proof fn lemma_inverse_is_determined<
    S: Fn(Single) -> Single,
    C: Fn(Single) -> Single,
    A: Fn(Single, Single) -> Single,
    K: Fn(Single) -> Single,
>(
    p: Parameters,
    pose: Pose,
    sin: S,
    cos: C,
    atan2: A,
    acos: K,
    angles: ArmAngles,
    trigs: [ArmTrig; 4],
    wrists: [WristBranch; 4],
    r: [JointState; 8],
    angles_again: ArmAngles,
    trigs_again: [ArmTrig; 4],
    wrists_again: [WristBranch; 4],
    r_again: [JointState; 8],
)
    requires
        single_valued(sin),
        single_valued(cos),
        single_valued_of_two(atan2),
        single_valued(acos),
        inverse_with(p, pose, sin, cos, atan2, acos, angles, trigs, wrists, r),
        inverse_with(
            p,
            pose,
            sin,
            cos,
            atan2,
            acos,
            angles_again,
            trigs_again,
            wrists_again,
            r_again,
        ),
    ensures
        r == r_again,
{
    assert(angles == angles_again);
    let arms = arm_branches_of(angles);
    assert forall|i: int| 0 <= i < 4 implies trigs[i] == trigs_again[i] && wrists[i]
        == wrists_again[i] by {
        assert(evaluates_trig(sin, cos, arms[i], trigs[i]));
        assert(evaluates_trig(sin, cos, arms[i], trigs_again[i]));
        assert(trigs[i] == trigs_again[i]);
        assert(evaluates_wrist(atan2, pose, trigs[i], wrists[i]));
        assert(evaluates_wrist(atan2, pose, trigs[i], wrists_again[i]));
        assert(wrists[i].theta5 == wrists_again[i].theta5);
    }
    assert(wrists =~= wrists_again);
    assert(r@ == r_again@);
    assert(r =~= r_again);
}

/// An angle is finite in the manufacturer's convention exactly if it is
/// in the solver's, for an offset of modest size and an angle that, if
/// finite, is not beyond 2^11.
pub proof fn lemma_finite_stays(internal: Single, direction: RotationDirection, offset: Single)
    requires
        within(offset, 270),
        internal.finite() ==> within(internal, 160),
    ensures
        manufacturer_angle(internal, direction, offset).finite() == internal.finite(),
{
    lemma2_to64();
    lemma_pow2_adds(23, 126);
    assert(ONE_BITS / 0x80_0000 == 127 && ONE_BITS % 0x80_0000 == 0);
    assert(within(direction.multiplier(), 149));
    if internal.finite() {
        lemma_within_larger(internal, 160, 270);
        lemma_sum_within(internal, offset, 270);
        lemma_product_within(internal.plus(offset), direction.multiplier(), 271, 149);
    } else {
        reveal(sum);
        reveal(product);
    }
}

/// Whether every angle of the branch is either not finite or not beyond
/// 2^10 in magnitude.
pub open spec fn modest_branch(a: ArmBranch, w: WristBranch) -> bool {
    &&& a.theta1.finite() ==> within(a.theta1, 159)
    &&& a.theta2.finite() ==> within(a.theta2, 159)
    &&& a.theta3.finite() ==> within(a.theta3, 159)
    &&& w.theta4.finite() ==> within(w.theta4, 159)
    &&& w.theta5.finite() ==> within(w.theta5, 159)
    &&& w.theta6.finite() ==> within(w.theta6, 159)
}

/// Whether all six angles of the branch are finite.
pub open spec fn finite_branch(a: ArmBranch, w: WristBranch) -> bool {
    &&& a.theta1.finite()
    &&& a.theta2.finite()
    &&& a.theta3.finite()
    &&& w.theta4.finite()
    &&& w.theta5.finite()
    &&& w.theta6.finite()
}

/// A branch is marked exactly if it has an angle that is not finite: its
/// joint state, and the one with the wrist flipped, is valid if all six
/// angles of the branch are finite, and only then.
pub proof fn lemma_valid_branches(p: Parameters, a: ArmBranch, w: WristBranch)
    requires
        forall|i: int| 0 <= i < 6 ==> within(#[trigger] p.offsets[i], 270),
        modest_branch(a, w),
    ensures
        solution_of(p, a, w).valid() == finite_branch(a, w),
        solution_of(p, a, flipped(w)).valid() == finite_branch(a, w),
{
    let plain = solution_of(p, a, w);
    let other = solution_of(p, a, flipped(w));
    let f = flipped(w);
    // Half a turn more or less keeps an angle finite, and of modest size.
    lemma2_to64();
    lemma_pow2_adds(23, 127);
    assert(PI_BITS / 0x80_0000 == 128 && PI_BITS % 0x80_0000 == 0x49_0FDB);
    let pi = Single::spec_pi();
    assert(pi.magnitude() == 0xC9_0FDB * pow2(127));
    lemma_pow2_adds(24, 127);
    lemma_pow2_strictly_increases(151, 159);
    assert(within(pi, 159)) by (nonlinear_arith)
        requires
            pi.finite(),
            pi.magnitude() == 0xC9_0FDB * pow2(127),
            pow2(151) == 0x100_0000 * pow2(127),
            pow2(151) < pow2(159),
    ;
    if w.theta4.finite() {
        lemma_sum_within(w.theta4, pi, 159);
    } else {
        reveal(sum);
    }
    if w.theta6.finite() {
        lemma_difference_within(w.theta6, pi, 159);
    } else {
        reveal(sum);
    }
    assert(f.theta4.finite() == w.theta4.finite());
    assert(f.theta5.finite() == w.theta5.finite());
    assert(f.theta6.finite() == w.theta6.finite());
    lemma_pow2_strictly_increases(159, 160);
    lemma_finite_stays(a.theta1, p.sign_corrections.0, p.offsets[0]);
    lemma_finite_stays(a.theta2, p.sign_corrections.1, p.offsets[1]);
    lemma_finite_stays(a.theta3, p.sign_corrections.2, p.offsets[2]);
    lemma_finite_stays(w.theta4, p.sign_corrections.3, p.offsets[3]);
    lemma_finite_stays(w.theta5, p.sign_corrections.4, p.offsets[4]);
    lemma_finite_stays(w.theta6, p.sign_corrections.5, p.offsets[5]);
    lemma_finite_stays(f.theta4, p.sign_corrections.3, p.offsets[3]);
    lemma_finite_stays(f.theta5, p.sign_corrections.4, p.offsets[4]);
    lemma_finite_stays(f.theta6, p.sign_corrections.5, p.offsets[5]);
    assert(plain@[0] == plain.0 && plain@[1] == plain.1 && plain@[2] == plain.2);
    assert(plain@[3] == plain.3 && plain@[4] == plain.4 && plain@[5] == plain.5);
    assert(other@[0] == other.0 && other@[1] == other.1 && other@[2] == other.2);
    assert(other@[3] == other.3 && other@[4] == other.4 && other@[5] == other.5);
}

/// An arm out of reach marks its branches: where the cosine of an angle of
/// the triangle of shoulder, elbow and wrist centre has no arc cosine, the
/// two arms on that side have an angle that is not a number.
pub proof fn lemma_unreachable_arm(a: ArmAngles)
    ensures
        a.shoulder_front.is_nan() ==> arm_branches_of(a)[0].theta2.is_nan() && arm_branches_of(
            a,
        )[1].theta2.is_nan(),
        a.elbow_front.is_nan() ==> arm_branches_of(a)[0].theta3.is_nan() && arm_branches_of(
            a,
        )[1].theta3.is_nan(),
        a.shoulder_back.is_nan() ==> arm_branches_of(a)[2].theta2.is_nan() && arm_branches_of(
            a,
        )[3].theta2.is_nan(),
        a.elbow_back.is_nan() ==> arm_branches_of(a)[2].theta3.is_nan() && arm_branches_of(
            a,
        )[3].theta3.is_nan(),
{
    reveal(sum);
}

/// Of the eight joint states, those of a branch are valid exactly if all
/// six angles of the branch are finite: a branch that cannot reach the pose
/// is never left out, and never passes for one that can.
pub proof fn lemma_marked_branches(
    p: Parameters,
    arms: [ArmBranch; 4],
    wrists: [WristBranch; 4],
    i: int,
)
    requires
        0 <= i < 4,
        forall|j: int| 0 <= j < 6 ==> within(#[trigger] p.offsets[j], 270),
        modest_branch(arms[i], wrists[i]),
    ensures
        solutions_of(p, arms, wrists).len() == 8,
        solutions_of(p, arms, wrists)[i].valid() == finite_branch(arms[i], wrists[i]),
        solutions_of(p, arms, wrists)[i + 4].valid() == finite_branch(arms[i], wrists[i]),
{
    lemma_valid_branches(p, arms[i], wrists[i]);
}

} // verus!
