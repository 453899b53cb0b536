use nalgebra as na;
use opwk::forward::ForwardTrig;
use opwk::inverse::{ArmAngles, ArmTrig, Planar, WristBranch, WristRequest};
use opwk::single::Single;
use opwk::types::{JointState, Parameters, Pose, RotationDirection, SignCorrections};
use opwk::is_valid;
use std::f32::consts::PI;
use std::ops::AddAssign;

fn s(x: f32) -> Single {
    Single::from_bits(x.to_bits())
}

fn f(x: Single) -> f32 {
    f32::from_bits(x.to_bits())
}

fn joints(q: [f32; 6]) -> JointState {
    JointState::from([s(q[0]), s(q[1]), s(q[2]), s(q[3]), s(q[4]), s(q[5])])
}

fn angles_of(q: &JointState) -> [f32; 6] {
    [f(q.0), f(q.1), f(q.2), f(q.3), f(q.4), f(q.5)]
}

fn sin(x: Single) -> Single {
    s(f(x).sin())
}

fn cos(x: Single) -> Single {
    s(f(x).cos())
}

fn atan2(y: Single, x: Single) -> Single {
    s(f(y).atan2(f(x)))
}

fn acos(x: Single) -> Single {
    s(f(x).acos())
}

/// Forward kinematics with the hardware's sine, cosine and arc tangent.
fn forward(p: &Parameters, q: &JointState) -> Pose {
    opwk::forward(p, q, &sin, &cos, &atan2)
}

/// Inverse kinematics with the hardware's elementary functions.
fn inverse(p: &Parameters, pose: &Pose) -> [JointState; 8] {
    opwk::inverse(p, pose, &sin, &cos, &atan2, &acos)
}

/// Forward kinematics step by step.
fn forward_by_steps(p: &Parameters, q: &JointState) -> Pose {
    let psi3 = atan2(p.a2, p.c3);
    let a = opwk::forward::angles(p, q, psi3);
    let th = angles_of(&a.joints);
    let trig = ForwardTrig {
        sin: [
            s(th[0].sin()),
            s(th[1].sin()),
            s(th[2].sin()),
            s(th[3].sin()),
            s(th[4].sin()),
            s(th[5].sin()),
        ],
        cos: [
            s(th[0].cos()),
            s(th[1].cos()),
            s(th[2].cos()),
            s(th[3].cos()),
            s(th[4].cos()),
            s(th[5].cos()),
        ],
        sin_forearm: sin(a.forearm),
        cos_forearm: cos(a.forearm),
    };
    opwk::forward::pose(p, &trig)
}

/// Inverse kinematics step by step.
fn inverse_by_steps(p: &Parameters, pose: &Pose) -> [JointState; 8] {
    let args = opwk::inverse::arm_arguments(p, pose);
    let at = |a: &Planar| atan2(a.y, a.x);
    let angles = ArmAngles {
        heading: at(&args.heading),
        lateral: at(&args.lateral),
        elevation_front: at(&args.elevation_front),
        elevation_back: at(&args.elevation_back),
        forearm_offset: at(&args.forearm_offset),
        shoulder_front: acos(args.shoulder_front),
        shoulder_back: acos(args.shoulder_back),
        elbow_front: acos(args.elbow_front),
        elbow_back: acos(args.elbow_back),
    };
    let arms = opwk::inverse::arm_branches(&angles);
    let mut wrists = [WristBranch { theta4: s(0.0), theta5: s(0.0), theta6: s(0.0) }; 4];
    for i in 0..4 {
        let trig = ArmTrig {
            sin1: sin(arms[i].theta1),
            cos1: cos(arms[i].theta1),
            sin23: sin(arms[i].forearm()),
            cos23: cos(arms[i].forearm()),
        };
        let theta5 = at(&opwk::inverse::wrist_bend(pose, &trig));
        let (theta4, theta6) = match opwk::inverse::wrist_request(pose, &trig, theta5) {
            WristRequest::Bent { theta4, theta6 } => (at(&theta4), at(&theta6)),
            WristRequest::Straight { theta6 } => (s(0.0), at(&theta6)),
        };
        wrists[i] = WristBranch { theta4, theta5, theta6 };
    }
    opwk::inverse::solutions(p, &arms, &wrists)
}

struct FloatParameters {
    a1: f32,
    a2: f32,
    b: f32,
    c1: f32,
    c2: f32,
    c3: f32,
    c4: f32,
    offsets: [f32; 6],
    signs: [f32; 6],
}

fn float_parameters(p: &Parameters) -> FloatParameters {
    let signs: [i8; 6] = (&p.sign_corrections).into();
    FloatParameters {
        a1: f(p.a1),
        a2: f(p.a2),
        b: f(p.b),
        c1: f(p.c1),
        c2: f(p.c2),
        c3: f(p.c3),
        c4: f(p.c4),
        offsets: [
            f(p.offsets[0]),
            f(p.offsets[1]),
            f(p.offsets[2]),
            f(p.offsets[3]),
            f(p.offsets[4]),
            f(p.offsets[5]),
        ],
        signs: [
            signs[0] as f32,
            signs[1] as f32,
            signs[2] as f32,
            signs[3] as f32,
            signs[4] as f32,
            signs[5] as f32,
        ],
    }
}

/// The forward model in hardware floating point, its matrices by nalgebra.
fn float_forward(p: &FloatParameters, qs: &[f32; 6]) -> na::IsometryMatrix3<f32> {
    let q = [
        qs[0] * p.signs[0] - p.offsets[0],
        qs[1] * p.signs[1] - p.offsets[1],
        qs[2] * p.signs[2] - p.offsets[2],
        qs[3] * p.signs[3] - p.offsets[3],
        qs[4] * p.signs[4] - p.offsets[4],
        qs[5] * p.signs[5] - p.offsets[5],
    ];
    let psi3 = p.a2.atan2(p.c3);
    let k = (p.a2 * p.a2 + p.c3 * p.c3).sqrt();

    let cx1 = p.c2 * q[1].sin() + k * (q[1] + q[2] + psi3).sin() + p.a1;
    let cy1 = p.b;
    let cz1 = p.c2 * q[1].cos() + k * (q[1] + q[2] + psi3).cos();

    let cx0 = cx1 * q[0].cos() - cy1 * q[0].sin();
    let cy0 = cx1 * q[0].sin() + cy1 * q[0].cos();
    let cz0 = cz1 + p.c1;

    let (s1, s2, s3, s4, s5, s6) =
        (q[0].sin(), q[1].sin(), q[2].sin(), q[3].sin(), q[4].sin(), q[5].sin());
    let (c1, c2, c3, c4, c5, c6) =
        (q[0].cos(), q[1].cos(), q[2].cos(), q[3].cos(), q[4].cos(), q[5].cos());

    let r_0c = na::Matrix3::new(
        c1 * c2 * c3 - c1 * s2 * s3,
        -s1,
        c1 * c2 * s3 + c1 * s2 * c3,
        s1 * c2 * c3 - s1 * s2 * s3,
        c1,
        s1 * c2 * s3 + s1 * s2 * c3,
        -s2 * c3 - c2 * s3,
        0.0,
        -s2 * s3 + c2 * c3,
    );
    let r_ce = na::Matrix3::new(
        c4 * c5 * c6 - s4 * s6,
        -c4 * c5 * s6 - s4 * c6,
        c4 * s5,
        s4 * c5 * c6 + c4 * s6,
        -s4 * c5 * s6 + c4 * c6,
        s4 * s5,
        -s5 * c6,
        s5 * s6,
        c5,
    );
    let r_oe = r_0c * r_ce;
    let u = na::Vector3::new(cx0, cy0, cz0) + p.c4 * r_oe * na::Vector3::z();
    na::IsometryMatrix3::from_parts(
        na::Translation::from(u),
        na::Rotation3::from_matrix_unchecked(r_oe),
    )
}

fn float_bent_wrist(
    matrix: &na::Matrix3<f32>,
    cos1: f32,
    sin1: f32,
    c23: f32,
    s23: f32,
) -> (f32, f32) {
    let theta4_y = matrix[(1, 2)] * cos1 - matrix[(0, 2)] * sin1;
    let theta4_x =
        matrix[(0, 2)] * c23 * cos1 + matrix[(1, 2)] * c23 * sin1 - matrix[(2, 2)] * s23;
    let theta6_y =
        matrix[(0, 1)] * s23 * cos1 + matrix[(1, 1)] * s23 * sin1 + matrix[(2, 1)] * c23;
    let theta6_x =
        -matrix[(0, 0)] * s23 * cos1 - matrix[(1, 0)] * s23 * sin1 - matrix[(2, 0)] * c23;
    (theta4_y.atan2(theta4_x), theta6_y.atan2(theta6_x))
}

fn float_straight_wrist(matrix: &na::Matrix3<f32>, base_theta: f32) -> (f32, f32) {
    let xe = na::Vector3::new(matrix[(0, 0)], matrix[(1, 0)], matrix[(2, 0)]);
    let mut rc_mat = na::Matrix3::<f32>::zeros();
    rc_mat.column_mut(1).add_assign(na::Vector3::new(-base_theta.sin(), base_theta.cos(), 0.0));
    rc_mat.column_mut(2).add_assign(matrix.column(2));
    let tmp = rc_mat.column(1).cross(&rc_mat.column(2));
    rc_mat.column_mut(0).add_assign(tmp);
    let xec = rc_mat.transpose() * xe;
    (0.0, xec.y.atan2(xec.x))
}

/// The inverse model in hardware floating point, its matrices by nalgebra.
fn float_inverse(p: &FloatParameters, pose: &na::IsometryMatrix3<f32>) -> [[f32; 6]; 8] {
    let matrix = pose.rotation.matrix();
    let c = pose.translation.vector - p.c4 * matrix * na::Vector3::z();

    let nx1 = (c.x * c.x + c.y * c.y - p.b * p.b).sqrt() - p.a1;

    let tmp1 = c.y.atan2(c.x);
    let tmp2 = p.b.atan2(nx1 + p.a1);
    let theta1_i = tmp1 - tmp2;
    let theta1_ii = tmp1 + tmp2 - PI;

    let tmp3 = c.z - p.c1;
    let s1_2 = nx1 * nx1 + tmp3 * tmp3;
    let tmp4 = nx1 + 2.0 * p.a1;
    let s2_2 = tmp4 * tmp4 + tmp3 * tmp3;
    let kappa_2 = p.a2 * p.a2 + p.c3 * p.c3;
    let c2_2 = p.c2 * p.c2;
    let tmp5 = s1_2 + c2_2 - kappa_2;
    let s1 = s1_2.sqrt();
    let s2 = s2_2.sqrt();

    let tmp13 = (tmp5 / (2.0 * s1 * p.c2)).acos();
    let tmp14 = nx1.atan2(c.z - p.c1);
    let theta2_i = -tmp13 + tmp14;
    let theta2_ii = tmp13 + tmp14;

    let tmp6 = s2_2 + c2_2 - kappa_2;
    let tmp15 = (tmp6 / (2.0 * s2 * p.c2)).acos();
    let tmp16 = (nx1 + 2.0 * p.a1).atan2(c.z - p.c1);
    let theta2_iii = -tmp15 - tmp16;
    let theta2_iv = tmp15 - tmp16;

    let tmp7 = s1_2 - c2_2 - kappa_2;
    let tmp8 = s2_2 - c2_2 - kappa_2;
    let tmp9 = 2.0 * p.c2 * kappa_2.sqrt();
    let tmp10 = p.a2.atan2(p.c3);
    let tmp11 = (tmp7 / tmp9).acos();
    let theta3_i = tmp11 - tmp10;
    let theta3_ii = -tmp11 - tmp10;
    let tmp12 = (tmp8 / tmp9).acos();
    let theta3_iii = tmp12 - tmp10;
    let theta3_iv = -tmp12 - tmp10;

    let theta1 = [theta1_i, theta1_i, theta1_ii, theta1_ii];
    let theta2 = [theta2_i, theta2_ii, theta2_iii, theta2_iv];
    let theta3 = [theta3_i, theta3_ii, theta3_iii, theta3_iv];

    let mut theta4 = [0.0f32; 8];
    let mut theta5 = [0.0f32; 8];
    let mut theta6 = [0.0f32; 8];
    for i in 0..4 {
        let sin1 = theta1[i].sin();
        let cos1 = theta1[i].cos();
        let s23 = (theta2[i] + theta3[i]).sin();
        let c23 = (theta2[i] + theta3[i]).cos();
        let m = matrix[(0, 2)] * s23 * cos1 + matrix[(1, 2)] * s23 * sin1 + matrix[(2, 2)] * c23;
        theta5[i] = (1.0 - m * m).sqrt().atan2(m);
        let (t4, t6) = if theta5[i].abs() < 1e-6f32 {
            float_straight_wrist(matrix, theta1[i])
        } else {
            float_bent_wrist(matrix, cos1, sin1, c23, s23)
        };
        theta4[i] = t4;
        theta6[i] = t6;
        theta4[i + 4] = t4 + PI;
        theta5[i + 4] = -theta5[i];
        theta6[i + 4] = t6 - PI;
    }

    let mut sols = [[0.0f32; 6]; 8];
    for i in 0..8 {
        let internal = [theta1[i % 4], theta2[i % 4], theta3[i % 4], theta4[i], theta5[i], theta6[i]];
        for j in 0..6 {
            sols[i][j] = (internal[j] + p.offsets[j]) * p.signs[j];
        }
    }
    sols
}

fn to_isometry(pose: &Pose) -> na::IsometryMatrix3<f32> {
    let r = &pose.rotation;
    let t = &pose.translation;
    na::IsometryMatrix3::from_parts(
        na::Translation::from(na::Vector3::new(f(t[0]), f(t[1]), f(t[2]))),
        na::Rotation3::from_matrix_unchecked(na::Matrix3::new(
            f(r[0][0]),
            f(r[0][1]),
            f(r[0][2]),
            f(r[1][0]),
            f(r[1][1]),
            f(r[1][2]),
            f(r[2][0]),
            f(r[2][1]),
            f(r[2][2]),
        )),
    )
}

fn kuka_kr6_params() -> Parameters {
    Parameters {
        a1: s(0.025),
        a2: s(-0.035),
        b: s(0.000),
        c1: s(0.400),
        c2: s(0.315),
        c3: s(0.365),
        c4: s(0.080),
        offsets: [s(0.0), s(-PI / 2.0), s(0.0), s(0.0), s(0.0), s(0.0)],
        sign_corrections: SignCorrections(
            RotationDirection::Negative,
            RotationDirection::Positive,
            RotationDirection::Positive,
            RotationDirection::Negative,
            RotationDirection::Positive,
            RotationDirection::Negative,
        ),
    }
}

/// A manipulator whose second axis is offset sideways from the first.
fn offset_arm_params() -> Parameters {
    Parameters {
        a1: s(0.150),
        a2: s(-0.110),
        b: s(0.050),
        c1: s(0.550),
        c2: s(0.614),
        c3: s(0.640),
        c4: s(0.110),
        offsets: [s(0.1), s(-PI / 2.0), s(0.0), s(-0.3), s(0.0), s(0.25)],
        sign_corrections: SignCorrections(
            RotationDirection::Positive,
            RotationDirection::Positive,
            RotationDirection::Negative,
            RotationDirection::Positive,
            RotationDirection::Negative,
            RotationDirection::Positive,
        ),
    }
}

fn expect_near(a: f32, b: f32, tolerance: f32) {
    assert!((a - b).abs() < tolerance, "{} is not within {} of {}", a, tolerance, b);
}

fn compare_poses_within(a: &na::IsometryMatrix3<f32>, b: &na::IsometryMatrix3<f32>, tolerance: f32) {
    let ra = a.rotation.matrix();
    let rb = b.rotation.matrix();
    for i in 0..3 {
        for j in 0..3 {
            expect_near(ra[(i, j)], rb[(i, j)], tolerance);
        }
    }
    expect_near(a.translation.x, b.translation.x, tolerance);
    expect_near(a.translation.y, b.translation.y, tolerance);
    expect_near(a.translation.z, b.translation.z, tolerance);
}

fn compare_poses(a: &na::IsometryMatrix3<f32>, b: &na::IsometryMatrix3<f32>) {
    compare_poses_within(a, b, 1e-5f32);
}

fn sample_joints() -> Vec<[f32; 6]> {
    let mut state: u64 = 0x0BAD_5EED_0BAD_5EED;
    let mut out = vec![
        [0.2, 0.2, 0.2, 0.2, 0.2, 0.2],
        [0.0, 0.0, 0.0, 0.0, 0.0, 0.0],
        [-0.5, 0.3, -0.2, 1.0, -0.7, 2.0],
        [1.2, -0.4, 0.6, -2.0, 1.1, -0.3],
        // Straight wrists.
        [0.3, 0.2, -0.1, 0.4, 0.0, -0.6],
        [-1.0, 0.5, 0.3, 0.0, 0.0, 0.0],
        [0.7, -0.2, 0.4, 1.5, 1e-7, 0.9],
        [0.0, 0.1, 0.2, -0.8, -3e-7, 2.5],
        [2.0, 0.6, -0.9, 3.0, 0.0, -3.0],
    ];
    for _ in 0..200 {
        let mut q = [0.0f32; 6];
        for x in q.iter_mut() {
            state ^= state << 13;
            state ^= state >> 7;
            state ^= state << 17;
            *x = ((state >> 40) as f32 / (1u64 << 24) as f32 - 0.5) * 3.0;
        }
        out.push(q);
    }
    out
}

#[test]
fn kuka_kr6_forward() {
    let params = kuka_kr6_params();

    let joint_values = [0.2, 0.2, 0.2, 0.2, 0.2, 0.2];
    let forward_pose = to_isometry(&forward(&params, &joints(joint_values)));

    let expected = na::IsometryMatrix3::<f32>::from_parts(
        na::Translation::from(na::Vector3::new(0.7341169, -0.1520347, 0.182639)),
        na::Rotation3::from_matrix_unchecked(na::Matrix3::new(
            -0.5965795,
            0.000371195,
            0.8025539,
            -0.2724458,
            0.9405218,
            -0.202958,
            -0.7548948,
            -0.3397331,
            -0.5609949,
        )),
    );

    compare_poses(&forward_pose, &expected);
}

#[test]
fn kuka_kr6_inverse() {
    let params = kuka_kr6_params();

    let joint_values = [0.2, 0.2, 0.2, 0.2, 0.2, 0.2];
    let forward_pose = forward(&params, &joints(joint_values));

    let sols = inverse(&params, &forward_pose);
    let mut valid: u32 = 0;
    for s in sols {
        if is_valid(&s) {
            // Forward kinematics of a solution should result in the same pose
            let pose = forward(&params, &s);
            compare_poses(&to_isometry(&forward_pose), &to_isometry(&pose));
            valid += 1;
        }
    }
    assert!(valid >= 1);
}

#[test]
fn forward_is_the_hardware_model() {
    for params in [kuka_kr6_params(), offset_arm_params()] {
        let fp = float_parameters(&params);
        for q in sample_joints() {
            let ours = to_isometry(&forward(&params, &joints(q)));
            let theirs = float_forward(&fp, &q);
            assert_eq!(ours.rotation.matrix(), theirs.rotation.matrix(), "joints {:?}", q);
            assert_eq!(ours.translation.vector, theirs.translation.vector, "joints {:?}", q);
        }
    }
}

#[test]
fn inverse_is_the_hardware_model() {
    for params in [kuka_kr6_params(), offset_arm_params()] {
        let fp = float_parameters(&params);
        for q in sample_joints() {
            let pose = forward(&params, &joints(q));
            let ours = inverse(&params, &pose);
            let theirs = float_inverse(&fp, &to_isometry(&pose));
            for i in 0..8 {
                let a = angles_of(&ours[i]);
                for j in 0..6 {
                    assert!(
                        (a[j].is_nan() && theirs[i][j].is_nan()) || a[j] == theirs[i][j],
                        "joints {:?}, branch {}, axis {}: {} and {}",
                        q,
                        i,
                        j,
                        a[j],
                        theirs[i][j]
                    );
                }
            }
        }
    }
}

fn pose_distance(a: &na::IsometryMatrix3<f32>, b: &na::IsometryMatrix3<f32>) -> f32 {
    let d = (a.rotation.matrix() - b.rotation.matrix()).abs().max();
    d.max((a.translation.vector - b.translation.vector).abs().max())
}

#[test]
fn the_steps_give_what_the_whole_gives() {
    for params in [kuka_kr6_params(), offset_arm_params()] {
        for q in sample_joints() {
            let pose = forward(&params, &joints(q));
            assert_eq!(pose, forward_by_steps(&params, &joints(q)));
            let whole = inverse(&params, &pose);
            let steps = inverse_by_steps(&params, &pose);
            for i in 0..8 {
                for (a, b) in angles_of(&whole[i]).iter().zip(angles_of(&steps[i])) {
                    assert!((a.is_nan() && b.is_nan()) || a.to_bits() == b.to_bits());
                }
            }
        }
    }
}

#[test]
fn some_branch_reaches_the_pose() {
    for params in [kuka_kr6_params(), offset_arm_params()] {
        for q in sample_joints() {
            let target = to_isometry(&forward(&params, &joints(q)));
            let mut best = f32::INFINITY;
            for sol in inverse(&params, &forward(&params, &joints(q))) {
                if is_valid(&sol) {
                    let d = pose_distance(&target, &to_isometry(&forward(&params, &sol)));
                    best = best.min(d);
                }
            }
            // Single precision loses digits where the arm is nearly stretched.
            assert!(best < 1e-3, "joints {:?}: the nearest branch is {} away", q, best);
        }
    }
}

#[test]
fn a_pose_out_of_reach_has_eight_branches_and_none_valid() {
    let params = kuka_kr6_params();
    let mut pose = forward(&params, &joints([0.2; 6]));
    pose.translation = [s(5.0), s(-3.0), s(4.0)];
    let sols = inverse(&params, &pose);
    assert_eq!(sols.len(), 8);
    for sol in sols {
        assert!(!is_valid(&sol));
    }
}

#[test]
fn straight_and_nearly_straight_wrists_agree() {
    let params = kuka_kr6_params();
    // The fifth joint of this manipulator counts in the solver's own sense.
    for bend in [0.0f32, 2e-7, 9e-7, 1.1e-6, 2e-6, 1e-5, -9e-7, -1.1e-6] {
        let q = [0.3, 0.2, -0.1, 0.4, bend, -0.6];
        let target = forward(&params, &joints(q));
        let mut valid: u32 = 0;
        for sol in inverse(&params, &target) {
            if is_valid(&sol) {
                valid += 1;
                let reached = forward(&params, &sol);
                compare_poses_within(&to_isometry(&target), &to_isometry(&reached), 1e-4);
            }
        }
        assert!(valid >= 1);
    }
}

#[test]
fn the_wrist_formulas_are_the_hardware_model() {
    let params = kuka_kr6_params();
    let mut straight: u32 = 0;
    for q in sample_joints() {
        let pose = forward(&params, &joints(q));
        let matrix = *to_isometry(&pose).rotation.matrix();
        for base in [q[0], -q[1], q[2] + 1.0] {
            let t23 = q[3];
            let trig = ArmTrig {
                sin1: s(base.sin()),
                cos1: s(base.cos()),
                sin23: s(t23.sin()),
                cos23: s(t23.cos()),
            };
            match opwk::inverse::straight_wrist(&pose, &trig) {
                WristRequest::Straight { theta6 } => {
                    let (t4, t6) = float_straight_wrist(&matrix, base);
                    assert_eq!(t4, 0.0);
                    assert_eq!(f(atan2(theta6.y, theta6.x)), t6);
                    straight += 1;
                }
                WristRequest::Bent { .. } => panic!("a straight wrist was asked for"),
            }
            match opwk::inverse::bent_wrist(&pose, &trig) {
                WristRequest::Bent { theta4, theta6 } => {
                    let (t4, t6) =
                        float_bent_wrist(&matrix, base.cos(), base.sin(), t23.cos(), t23.sin());
                    assert_eq!(f(atan2(theta4.y, theta4.x)), t4);
                    assert_eq!(f(atan2(theta6.y, theta6.x)), t6);
                }
                WristRequest::Straight { .. } => panic!("a bent wrist was asked for"),
            }
        }
    }
    assert!(straight > 600);
}

#[test]
fn the_threshold_of_a_straight_wrist() {
    assert!(opwk::inverse::wrist_is_straight(s(0.0)));
    assert!(opwk::inverse::wrist_is_straight(s(-0.0)));
    assert!(opwk::inverse::wrist_is_straight(s(9.99e-7)));
    assert!(opwk::inverse::wrist_is_straight(s(-9.99e-7)));
    assert!(!opwk::inverse::wrist_is_straight(s(1e-6)));
    assert!(!opwk::inverse::wrist_is_straight(s(-1e-6)));
    assert!(!opwk::inverse::wrist_is_straight(s(0.5)));
    assert!(!opwk::inverse::wrist_is_straight(s(f32::NAN)));
    assert!(!opwk::inverse::wrist_is_straight(s(f32::INFINITY)));
    assert_eq!(opwk::inverse::STRAIGHT_WRIST_BITS, 1e-6f32.to_bits());
    let below = f32::from_bits(1e-6f32.to_bits() - 1);
    assert!(opwk::inverse::wrist_is_straight(s(below)));
}

#[test]
fn a_straight_wrist_leaves_the_fourth_angle_to_the_caller() {
    let params = kuka_kr6_params();
    let pose = forward(&params, &joints([0.3, 0.2, -0.1, 0.4, 0.0, -0.6]));
    let trig = ArmTrig { sin1: s(0.3f32.sin()), cos1: s(0.3f32.cos()), sin23: s(0.1), cos23: s(0.9) };
    assert!(matches!(
        opwk::inverse::wrist_request(&pose, &trig, s(0.0)),
        WristRequest::Straight { .. }
    ));
    assert!(matches!(
        opwk::inverse::wrist_request(&pose, &trig, s(0.1)),
        WristRequest::Bent { .. }
    ));
    assert!(matches!(
        opwk::inverse::wrist_request(&pose, &trig, s(f32::NAN)),
        WristRequest::Bent { .. }
    ));
}

#[test]
fn reversing_a_direction_and_negating_the_angle_gives_the_same_pose() {
    let base = kuka_kr6_params();
    let q = [0.2f32, -0.4, 0.6, 1.0, -0.7, 0.3];
    let expected = forward(&base, &joints(q));
    for axis in 0..6 {
        let mut params = kuka_kr6_params();
        let flip = |d: RotationDirection| match d {
            RotationDirection::Positive => RotationDirection::Negative,
            RotationDirection::Negative => RotationDirection::Positive,
        };
        let sc = &mut params.sign_corrections;
        match axis {
            0 => sc.0 = flip(sc.0),
            1 => sc.1 = flip(sc.1),
            2 => sc.2 = flip(sc.2),
            3 => sc.3 = flip(sc.3),
            4 => sc.4 = flip(sc.4),
            _ => sc.5 = flip(sc.5),
        }
        let mut negated = q;
        negated[axis] = -negated[axis];
        assert_eq!(forward(&params, &joints(negated)), expected);
    }
}

#[test]
fn the_eight_branches_are_four_arms_with_two_wrists_each() {
    let params = Parameters {
        offsets: [s(0.0); 6],
        sign_corrections: SignCorrections::default(),
        ..kuka_kr6_params()
    };
    let arms = opwk::inverse::arm_branches(&ArmAngles {
        heading: s(0.5),
        lateral: s(0.125),
        elevation_front: s(1.0),
        elevation_back: s(-1.0),
        forearm_offset: s(0.25),
        shoulder_front: s(0.75),
        shoulder_back: s(0.5),
        elbow_front: s(2.0),
        elbow_back: s(1.5),
    });
    assert_eq!(f(arms[0].theta1), 0.375);
    assert_eq!(f(arms[1].theta1), 0.375);
    assert_eq!(f(arms[2].theta1), 0.625 - PI);
    assert_eq!(f(arms[3].theta1), 0.625 - PI);
    assert_eq!(f(arms[0].theta2), 0.25);
    assert_eq!(f(arms[1].theta2), 1.75);
    assert_eq!(f(arms[2].theta2), 0.5);
    assert_eq!(f(arms[3].theta2), 1.5);
    assert_eq!(f(arms[0].theta3), 1.75);
    assert_eq!(f(arms[1].theta3), -2.25);
    assert_eq!(f(arms[2].theta3), 1.25);
    assert_eq!(f(arms[3].theta3), -1.75);
    assert_eq!(f(arms[1].forearm()), -0.5);

    let wrists = [
        WristBranch { theta4: s(0.5), theta5: s(0.25), theta6: s(-0.5) },
        WristBranch { theta4: s(1.0), theta5: s(0.5), theta6: s(-1.0) },
        WristBranch { theta4: s(1.5), theta5: s(0.75), theta6: s(-1.5) },
        WristBranch { theta4: s(2.0), theta5: s(1.0), theta6: s(-2.0) },
    ];
    let sols = opwk::inverse::solutions(&params, &arms, &wrists);
    assert_eq!(sols.len(), 8);
    for i in 0..4 {
        let plain = angles_of(&sols[i]);
        let flipped = angles_of(&sols[i + 4]);
        assert_eq!(plain[0], f(arms[i].theta1));
        assert_eq!(plain[1], f(arms[i].theta2));
        assert_eq!(plain[2], f(arms[i].theta3));
        assert_eq!(plain[3], f(wrists[i].theta4));
        assert_eq!(plain[4], f(wrists[i].theta5));
        assert_eq!(plain[5], f(wrists[i].theta6));
        assert_eq!(flipped[0], plain[0]);
        assert_eq!(flipped[1], plain[1]);
        assert_eq!(flipped[2], plain[2]);
        assert_eq!(flipped[3], plain[3] + PI);
        assert_eq!(flipped[4], -plain[4]);
        assert_eq!(flipped[5], plain[5] - PI);
    }
}

/// A manipulator of round numbers, joints as the solver has them.
fn plain_params() -> Parameters {
    Parameters {
        a1: s(0.25),
        a2: s(0.0),
        b: s(0.0),
        c1: s(1.0),
        c2: s(1.0),
        c3: s(1.0),
        c4: s(0.5),
        offsets: [s(0.0); 6],
        sign_corrections: SignCorrections::default(),
    }
}

fn identity() -> [[Single; 3]; 3] {
    [[s(1.0), s(0.0), s(0.0)], [s(0.0), s(1.0), s(0.0)], [s(0.0), s(0.0), s(1.0)]]
}

#[test]
fn the_pose_of_an_upright_arm() {
    let upright = ForwardTrig {
        sin: [s(0.0); 6],
        cos: [s(1.0); 6],
        sin_forearm: s(0.0),
        cos_forearm: s(1.0),
    };
    let params = plain_params();
    let centre = opwk::forward::wrist_centre(&params, &upright);
    assert_eq!([f(centre[0]), f(centre[1]), f(centre[2])], [0.25, 0.0, 3.0]);
    let pose = opwk::forward::pose(&params, &upright);
    for i in 0..3 {
        for j in 0..3 {
            assert_eq!(f(pose.rotation[i][j]), if i == j { 1.0 } else { 0.0 });
        }
    }
    assert_eq!(
        [f(pose.translation[0]), f(pose.translation[1]), f(pose.translation[2])],
        [0.25, 0.0, 3.5]
    );
    // A quarter turn of the first joint carries the arm from x to y.
    let turned = ForwardTrig {
        sin: [s(1.0), s(0.0), s(0.0), s(0.0), s(0.0), s(0.0)],
        cos: [s(0.0), s(1.0), s(1.0), s(1.0), s(1.0), s(1.0)],
        ..upright
    };
    let pose = opwk::forward::pose(&params, &turned);
    assert_eq!(
        [f(pose.translation[0]), f(pose.translation[1]), f(pose.translation[2])],
        [0.0, 0.25, 3.5]
    );
    assert_eq!(f(pose.rotation[0][1]), -1.0);
    assert_eq!(f(pose.rotation[1][0]), 1.0);
    assert_eq!(f(pose.rotation[2][2]), 1.0);
}

#[test]
fn a_manipulator_of_modest_lengths_has_a_finite_pose() {
    let big = 1152921504606846976.0f32; // 2^60
    let params = Parameters {
        a1: s(big),
        a2: s(-big),
        b: s(big),
        c1: s(-big),
        c2: s(big),
        c3: s(big),
        c4: s(big),
        offsets: [s(1e36), s(-1e36), s(0.0), s(3.0), s(-1e30), s(1e-30)],
        sign_corrections: SignCorrections::default(),
    };
    for q in sample_joints() {
        for scale in [1.0f32, 1e10, 1e36] {
            let pose = forward(&params, &joints(q.map(|x| x * scale)));
            for i in 0..3 {
                for j in 0..3 {
                    assert!(f(pose.rotation[i][j]).abs() <= 16.0);
                }
                assert!(f(pose.translation[i]).abs() <= 36893488147419103232.0);
            }
        }
    }
    // Beyond that a length may be too much: its square is not finite.
    let mut huge = plain_params();
    huge.a2 = s(3e38);
    let pose = forward(&huge, &joints([0.2; 6]));
    assert!(!f(pose.translation[0]).is_finite());
}

#[test]
fn the_arguments_of_the_arm_for_a_simple_pose() {
    let params = plain_params();
    let pose = Pose { rotation: identity(), translation: [s(1.25), s(0.0), s(2.5)] };
    let centre = opwk::inverse::wrist_centre(&params, &pose);
    assert_eq!([f(centre[0]), f(centre[1]), f(centre[2])], [1.25, 0.0, 2.0]);
    let a = opwk::inverse::arm_arguments(&params, &pose);
    assert_eq!((f(a.heading.y), f(a.heading.x)), (0.0, 1.25));
    assert_eq!((f(a.lateral.y), f(a.lateral.x)), (0.0, 1.25));
    assert_eq!((f(a.elevation_front.y), f(a.elevation_front.x)), (1.0, 1.0));
    assert_eq!((f(a.elevation_back.y), f(a.elevation_back.x)), (1.5, 1.0));
    assert_eq!((f(a.forearm_offset.y), f(a.forearm_offset.x)), (0.0, 1.0));
    assert_eq!(f(a.shoulder_front), 2.0 / (2.0 * 2.0f32.sqrt()));
    assert_eq!(f(a.shoulder_front), 0.70710677);
    assert_eq!(f(a.shoulder_back), 3.25 / (2.0 * 3.25f32.sqrt()));
    assert_eq!(f(a.elbow_front), 0.0);
    assert_eq!(f(a.elbow_back), 0.625);
}

#[test]
fn the_bend_of_the_wrist_for_an_upright_flange() {
    let pose = Pose { rotation: identity(), translation: [s(1.25), s(0.0), s(2.5)] };
    let trig = ArmTrig { sin1: s(0.6), cos1: s(0.8), sin23: s(0.8660254), cos23: s(0.5) };
    let bend = opwk::inverse::wrist_bend(&pose, &trig);
    assert_eq!(f(bend.x), 0.5);
    assert_eq!(f(bend.y), 0.75f32.sqrt());
    assert_eq!(f(bend.y), 0.8660254);
    // Four of the six arguments of a bent wrist pick single entries of this rotation.
    match opwk::inverse::bent_wrist(&pose, &trig) {
        WristRequest::Bent { theta4, theta6 } => {
            assert_eq!(f(theta4.y), 0.0);
            assert_eq!(f(theta4.x), -0.8660254);
            assert_eq!(f(theta6.y), 0.8660254 * 0.6);
            assert_eq!(f(theta6.x), -0.8660254 * 0.8);
        }
        WristRequest::Straight { .. } => panic!("a bent wrist was asked for"),
    }
    // The axis of the second joint is (-0.6, 0.8, 0); the flange's first axis is x.
    match opwk::inverse::straight_wrist(&pose, &trig) {
        WristRequest::Straight { theta6 } => {
            assert_eq!(f(theta6.y), -0.6);
            assert_eq!(f(theta6.x), 0.8);
        }
        WristRequest::Bent { .. } => panic!("a straight wrist was asked for"),
    }
}

#[test]
fn an_upright_arm_is_found_again() {
    let params = plain_params();
    let pose = forward(&params, &joints([0.0; 6]));
    let sols = inverse(&params, &pose);
    let mut found = false;
    for sol in sols {
        if is_valid(&sol) {
            let a = angles_of(&sol);
            if a.iter().all(|x| x.abs() < 1e-3) {
                found = true;
            }
        }
    }
    assert!(found);
}

#[test]
fn matrices_multiply_as_nalgebra_has_it() {
    let mut state: u64 = 0xC0FF_EE00_C0FF_EE11;
    let mut draw = || {
        state ^= state << 13;
        state ^= state >> 7;
        state ^= state << 17;
        ((state >> 40) as f32 / (1u64 << 24) as f32 - 0.5) * 8.0
    };
    for _ in 0..2000 {
        let a: [[f32; 3]; 3] = [[draw(), draw(), draw()], [draw(), draw(), draw()], [draw(), draw(), draw()]];
        let b: [[f32; 3]; 3] = [[draw(), draw(), draw()], [draw(), draw(), draw()], [draw(), draw(), draw()]];
        let na_a = na::Matrix3::new(
            a[0][0], a[0][1], a[0][2], a[1][0], a[1][1], a[1][2], a[2][0], a[2][1], a[2][2],
        );
        let na_b = na::Matrix3::new(
            b[0][0], b[0][1], b[0][2], b[1][0], b[1][1], b[1][2], b[2][0], b[2][1], b[2][2],
        );
        let expected = na_a * na_b;
        let ours = opwk::linear::multiply(&a.map(|r| r.map(s)), &b.map(|r| r.map(s)));
        for i in 0..3 {
            for j in 0..3 {
                assert_eq!(f(ours[i][j]), expected[(i, j)]);
            }
        }
        let u = [s(a[0][0]), s(a[0][1]), s(a[0][2])];
        let v = [s(b[0][0]), s(b[0][1]), s(b[0][2])];
        let nu = na::Vector3::new(a[0][0], a[0][1], a[0][2]);
        let nv = na::Vector3::new(b[0][0], b[0][1], b[0][2]);
        assert_eq!(f(opwk::linear::inner(&u, &v)), nu.dot(&nv));
        let w = opwk::linear::outer(&u, &v);
        let nw = nu.cross(&nv);
        assert_eq!([f(w[0]), f(w[1]), f(w[2])], [nw.x, nw.y, nw.z]);
    }
}

#[test]
fn a_branch_is_valid_exactly_if_its_angles_are_finite() {
    let params = kuka_kr6_params();
    let arm = |x: f32| opwk::inverse::ArmBranch { theta1: s(x), theta2: s(0.5), theta3: s(-0.5) };
    let wrist = |x: f32| WristBranch { theta4: s(0.1), theta5: s(x), theta6: s(-0.1) };
    let arms = [arm(0.3), arm(f32::NAN), arm(-2.0), arm(1.0)];
    let wrists = [wrist(0.2), wrist(0.4), wrist(f32::INFINITY), wrist(-0.7)];
    let sols = opwk::inverse::solutions(&params, &arms, &wrists);
    let valid: Vec<bool> = sols.iter().map(is_valid).collect();
    assert_eq!(valid, [true, false, false, true, true, false, false, true]);
}

#[test]
fn conventions_map_each_way() {
    let params = kuka_kr6_params();
    let q = joints([0.5, 0.25, -0.75, 1.0, -1.5, 2.0]);
    let internal = opwk::convention::to_internal(&params, &q);
    assert_eq!(
        angles_of(&internal),
        [-0.5, 0.25 + PI / 2.0, -0.75, -1.0, -1.5, -2.0]
    );
    let back = opwk::convention::to_manufacturer(&params, &internal);
    assert_eq!(angles_of(&back), [0.5, (0.25 + PI / 2.0) - PI / 2.0, -0.75, 1.0, -1.5, 2.0]);
}
