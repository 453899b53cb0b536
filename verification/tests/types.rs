use opwk::harmonize::harmonize;
use opwk::single::Single;
use opwk::types::{JointState, Parameters, RotationDirection, SignCorrections};
use opwk::{harmonize_toward_zero, is_valid};
use std::f32::consts::PI;

fn s(x: f32) -> Single {
    Single::from_bits(x.to_bits())
}

fn f(x: Single) -> f32 {
    f32::from_bits(x.to_bits())
}

fn joints(q: [f32; 6]) -> JointState {
    JointState::from([s(q[0]), s(q[1]), s(q[2]), s(q[3]), s(q[4]), s(q[5])])
}

fn angles_of(q: &JointState) -> [f32; 6] {
    [f(q.0), f(q.1), f(q.2), f(q.3), f(q.4), f(q.5)]
}

fn parameters() -> Parameters {
    Parameters {
        a1: s(0.025),
        a2: s(-0.035),
        b: s(0.0),
        c1: s(0.4),
        c2: s(0.315),
        c3: s(0.365),
        c4: s(0.08),
        offsets: [s(0.0), s(-PI / 2.0), s(0.0), s(0.0), s(0.0), s(0.0)],
        sign_corrections: SignCorrections::default(),
    }
}

#[test]
fn directions_are_plus_and_minus_one() {
    assert_eq!(i8::from(RotationDirection::Positive), 1);
    assert_eq!(i8::from(RotationDirection::Negative), -1);
    assert_eq!(f(RotationDirection::Positive.to_single()), 1.0);
    assert_eq!(f(RotationDirection::Negative.to_single()), -1.0);
    assert_eq!(RotationDirection::default(), RotationDirection::Positive);
}

#[test]
fn sign_corrections_convert_axis_by_axis() {
    let sc = SignCorrections(
        RotationDirection::Negative,
        RotationDirection::Positive,
        RotationDirection::Positive,
        RotationDirection::Negative,
        RotationDirection::Positive,
        RotationDirection::Negative,
    );
    let signs: [i8; 6] = (&sc).into();
    assert_eq!(signs, [-1, 1, 1, -1, 1, -1]);
    let signs: [i8; 6] = (&SignCorrections::default()).into();
    assert_eq!(signs, [1, 1, 1, 1, 1, 1]);
}

#[test]
fn a_joint_state_keeps_the_order_of_its_angles() {
    let q = joints([0.1, 0.2, 0.3, 0.4, 0.5, 0.6]);
    assert_eq!(f(q.0), 0.1);
    assert_eq!(f(q.1), 0.2);
    assert_eq!(f(q.2), 0.3);
    assert_eq!(f(q.3), 0.4);
    assert_eq!(f(q.4), 0.5);
    assert_eq!(f(q.5), 0.6);
}

#[test]
fn a_joint_state_is_valid_when_all_angles_are_finite() {
    assert!(is_valid(&joints([0.0; 6])));
    assert!(is_valid(&joints([0.2, -3.0, 1e30, -1e-40, f32::MAX, f32::MIN])));
    for axis in 0..6 {
        for bad in [f32::NAN, f32::INFINITY, f32::NEG_INFINITY, -f32::NAN] {
            let mut q = [0.25f32; 6];
            q[axis] = bad;
            assert!(!is_valid(&joints(q)));
            assert!(!joints(q).is_valid());
        }
    }
}

#[test]
fn parameters_are_well_formed_when_all_numbers_are_finite() {
    assert!(parameters().is_well_formed());
    let mut p = parameters();
    p.c3 = s(f32::INFINITY);
    assert!(!p.is_well_formed());
    let mut p = parameters();
    p.a1 = s(f32::NAN);
    assert!(!p.is_well_formed());
    for axis in 0..6 {
        let mut p = parameters();
        p.offsets[axis] = s(f32::NAN);
        assert!(!p.is_well_formed());
    }
}

#[test]
fn angles_within_half_a_turn_of_zero_stay() {
    for x in [0.0f32, -0.0, 1.0, -1.0, 3.0, -3.0, PI, 3.1415925, -3.1415925, 1e-30] {
        assert_eq!(harmonize(s(x)).to_bits(), x.to_bits());
    }
}

#[test]
fn angles_beyond_half_a_turn_move_by_one_turn() {
    assert_eq!(f(harmonize(s(4.0))), 4.0 - 2.0 * PI);
    assert_eq!(f(harmonize(s(-4.0))), -4.0 + 2.0 * PI);
    assert_eq!(f(harmonize(s(3.1415930))), 3.1415930 - 2.0 * PI);
    assert_eq!(f(harmonize(s(-3.1415930))), -3.1415930 + 2.0 * PI);
    // The lower end of the range is open: -π goes to π.
    assert_eq!(f(harmonize(s(-PI))), PI);
    // Only one turn is taken.
    assert_eq!(f(harmonize(s(10.0))), 10.0 - 2.0 * PI);
    assert_eq!(f(harmonize(s(-100.0))), -100.0 + 2.0 * PI);
    assert_eq!(f(harmonize(s(6.0))), -0.28318548);
}

#[test]
fn angles_that_are_not_finite() {
    assert_eq!(harmonize(s(f32::NAN)).to_bits(), f32::NAN.to_bits());
    assert_eq!(f(harmonize(s(f32::INFINITY))), f32::INFINITY);
    assert_eq!(f(harmonize(s(f32::NEG_INFINITY))), f32::NEG_INFINITY);
}

#[test]
fn angles_within_a_turn_and_a_half_land_in_the_range() {
    let mut state: u64 = 0x1234_5678_9ABC_DEF1;
    for _ in 0..200_000 {
        state ^= state << 13;
        state ^= state >> 7;
        state ^= state << 17;
        let x = ((state >> 40) as f32 / (1u64 << 24) as f32 - 0.5) * 6.0 * PI;
        if x <= -3.0 * PI || x > 3.0 * PI {
            continue;
        }
        let r = f(harmonize(s(x)));
        assert!(-PI < r && r <= PI, "{} went to {}", x, r);
        let expected = if x > PI {
            x - 2.0 * PI
        } else if x <= -PI {
            x + 2.0 * PI
        } else {
            x
        };
        assert_eq!(r, expected);
    }
}

#[test]
fn a_joint_state_is_harmonized_angle_by_angle() {
    let mut q = joints([0.5, 4.0, -4.0, PI, -PI, f32::NAN]);
    harmonize_toward_zero(&mut q);
    let a = angles_of(&q);
    assert_eq!(a[0], 0.5);
    assert_eq!(a[1], 4.0 - 2.0 * PI);
    assert_eq!(a[2], -4.0 + 2.0 * PI);
    assert_eq!(a[3], PI);
    assert_eq!(a[4], PI);
    assert!(a[5].is_nan());

    let mut by_method = joints([0.5, 4.0, -4.0, PI, -PI, 7.0]);
    let mut by_function = by_method;
    by_method.harmonize_toward_zero();
    harmonize_toward_zero(&mut by_function);
    assert_eq!(by_method, by_function);
}
