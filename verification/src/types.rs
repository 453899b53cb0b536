//! The data that the kinematics work on: rotation directions, joint
//! angles and the geometry of one manipulator.
use crate::harmonize::{harmonize, harmonized};
use crate::linear::{Matrix3, Vector3};
use crate::single::Single;
use vstd::prelude::*;
use vstd::std_specs::convert::FromSpecImpl;

verus! {

/// Sense in which a joint turns, relative to the solver's own convention.
#[derive(Clone, Copy, Debug, PartialEq, Eq, Structural)]
pub enum RotationDirection {
    Positive,
    Negative,
}

impl RotationDirection {
    /// The multiplier that this direction stands for: `+1` or `-1`.
    pub open spec fn factor(self) -> i8 {
        match self {
            RotationDirection::Positive => 1i8,
            RotationDirection::Negative => -1i8,
        }
    }

    /// The opposite direction.
    pub open spec fn flipped(self) -> RotationDirection {
        match self {
            RotationDirection::Positive => RotationDirection::Negative,
            RotationDirection::Negative => RotationDirection::Positive,
        }
    }

    /// The multiplier as a single: `1.0` or `-1.0`.
    pub open spec fn multiplier(self) -> Single {
        match self {
            RotationDirection::Positive => Single::spec_one(),
            RotationDirection::Negative => Single::spec_one().negated(),
        }
    }

    /// The multiplier as a single: `1.0` or `-1.0`.
    pub fn to_single(self) -> (r: Single)
        ensures
            r == self.multiplier(),
    {
        match self {
            RotationDirection::Positive => Single::one(),
            RotationDirection::Negative => Single::one().neg(),
        }
    }
}

impl From<RotationDirection> for i8 {
    fn from(data: RotationDirection) -> (r: i8) {
        match data {
            RotationDirection::Positive => 1,
            RotationDirection::Negative => -1,
        }
    }
}

impl FromSpecImpl<RotationDirection> for i8 {
    open spec fn obeys_from_spec() -> bool {
        true
    }

    open spec fn from_spec(data: RotationDirection) -> i8 {
        data.factor()
    }
}

impl Default for RotationDirection {
    fn default() -> (r: Self)
        ensures
            r == RotationDirection::Positive,
    {
        RotationDirection::Positive
    }
}

/// Rotation direction of each of the six joints, axis 1 first.
#[derive(Clone, Copy, Debug, PartialEq, Eq, Structural)]
pub struct SignCorrections(
    pub RotationDirection,
    pub RotationDirection,
    pub RotationDirection,
    pub RotationDirection,
    pub RotationDirection,
    pub RotationDirection,
);

impl SignCorrections {
    /// The six directions in axis order.
    pub open spec fn directions(self) -> Seq<RotationDirection> {
        seq![self.0, self.1, self.2, self.3, self.4, self.5]
    }
}

impl View for SignCorrections {
    type V = Seq<RotationDirection>;

    open spec fn view(&self) -> Seq<RotationDirection> {
        self.directions()
    }
}

impl Default for SignCorrections {
    fn default() -> (r: Self)
        ensures
            r@ == Seq::new(6, |i: int| RotationDirection::Positive),
    {
        let r = SignCorrections(
            RotationDirection::Positive,
            RotationDirection::Positive,
            RotationDirection::Positive,
            RotationDirection::Positive,
            RotationDirection::Positive,
            RotationDirection::Positive,
        );
        assert(r@ =~= Seq::new(6, |i: int| RotationDirection::Positive));
        r
    }
}

impl From<&SignCorrections> for [i8; 6] {
    fn from(data: &SignCorrections) -> (r: [i8; 6]) {
        [
            i8::from(data.0),
            i8::from(data.1),
            i8::from(data.2),
            i8::from(data.3),
            i8::from(data.4),
            i8::from(data.5),
        ]
    }
}

impl FromSpecImpl<&SignCorrections> for [i8; 6] {
    open spec fn obeys_from_spec() -> bool {
        true
    }

    open spec fn from_spec(data: &SignCorrections) -> [i8; 6] {
        [
            data.0.factor(),
            data.1.factor(),
            data.2.factor(),
            data.3.factor(),
            data.4.factor(),
            data.5.factor(),
        ]
    }
}

/// Six joint angles in radians, axis 1 first.
///
/// A component that is not finite marks an angle that does not exist: a
/// solver branch that cannot reach the pose it was asked for.
#[derive(Clone, Copy, Debug, PartialEq, Eq, Structural)]
pub struct JointState(
    pub Single,
    pub Single,
    pub Single,
    pub Single,
    pub Single,
    pub Single,
);

impl View for JointState {
    type V = Seq<Single>;

    /// The six angles in axis order.
    open spec fn view(&self) -> Seq<Single> {
        seq![self.0, self.1, self.2, self.3, self.4, self.5]
    }
}

impl From<[Single; 6]> for JointState {
    fn from(data: [Single; 6]) -> (r: JointState) {
        JointState(data[0], data[1], data[2], data[3], data[4], data[5])
    }
}

impl FromSpecImpl<[Single; 6]> for JointState {
    open spec fn obeys_from_spec() -> bool {
        true
    }

    open spec fn from_spec(data: [Single; 6]) -> JointState {
        JointState(data[0], data[1], data[2], data[3], data[4], data[5])
    }
}

impl JointState {
    /// Whether every angle is finite.
    pub open spec fn valid(self) -> bool {
        forall|i: int| 0 <= i < 6 ==> (#[trigger] self@[i]).finite()
    }

    /// Whether all six angles are finite.
    pub fn is_valid(&self) -> (r: bool)
        ensures
            r == self.valid(),
    {
        let r = self.0.is_finite() && self.1.is_finite() && self.2.is_finite()
            && self.3.is_finite() && self.4.is_finite() && self.5.is_finite();
        proof {
            if r {
                assert forall|i: int| 0 <= i < 6 implies (#[trigger] self@[i]).finite() by {}
            } else {
                assert(self@[0] == self.0 && self@[1] == self.1 && self@[2] == self.2);
                assert(self@[3] == self.3 && self@[4] == self.4 && self@[5] == self.5);
            }
        }
        r
    }

    /// Brings every angle into `(-π, π]` by at most one whole turn.
    pub fn harmonize_toward_zero(&mut self)
        ensures
            final(self)@ == old(self)@.map_values(|q: Single| harmonized(q)),
    {
        self.0 = harmonize(self.0);
        self.1 = harmonize(self.1);
        self.2 = harmonize(self.2);
        self.3 = harmonize(self.3);
        self.4 = harmonize(self.4);
        self.5 = harmonize(self.5);
        assert(self@ =~= old(self)@.map_values(|q: Single| harmonized(q)));
    }
}

/// A rigid transform in the frame of the manipulator's base: where the
/// tool flange is and how it is turned.
#[derive(Clone, Copy, Debug, PartialEq, Eq)]
pub struct Pose {
    /// Orthonormal, with determinant one, for a pose that a manipulator can
    /// take.
    pub rotation: Matrix3,
    pub translation: Vector3,
}

impl Pose {
    /// Whether every entry of the rotation and every component of the
    /// translation is finite.
    pub open spec fn finite(self) -> bool {
        &&& forall|i: int, j: int|
            0 <= i < 3 && 0 <= j < 3 ==> (#[trigger] self.rotation[i][j]).finite()
        &&& forall|i: int| 0 <= i < 3 ==> (#[trigger] self.translation[i]).finite()
    }
}

/// Geometry of one manipulator: seven lengths in metres and, for each
/// joint, the offset and direction that relate the manufacturer's angle to
/// the solver's.
#[derive(Clone, Copy, Debug, PartialEq, Eq)]
pub struct Parameters {
    pub a1: Single,
    pub a2: Single,
    pub b: Single,
    pub c1: Single,
    pub c2: Single,
    pub c3: Single,
    pub c4: Single,
    pub offsets: [Single; 6],
    pub sign_corrections: SignCorrections,
}

impl Parameters {
    /// Whether all seven lengths and all six offsets are finite.
    pub open spec fn well_formed(self) -> bool {
        &&& self.a1.finite()
        &&& self.a2.finite()
        &&& self.b.finite()
        &&& self.c1.finite()
        &&& self.c2.finite()
        &&& self.c3.finite()
        &&& self.c4.finite()
        &&& forall|i: int| 0 <= i < 6 ==> (#[trigger] self.offsets[i]).finite()
    }

    /// Whether all seven lengths and all six offsets are finite.
    pub fn is_well_formed(&self) -> (r: bool)
        ensures
            r == self.well_formed(),
    {
        let lengths = self.a1.is_finite() && self.a2.is_finite() && self.b.is_finite()
            && self.c1.is_finite() && self.c2.is_finite() && self.c3.is_finite()
            && self.c4.is_finite();
        let mut offsets = true;
        let mut i: usize = 0;
        while i < 6
            invariant
                0 <= i <= 6,
                offsets == forall|j: int| 0 <= j < i ==> (#[trigger] self.offsets[j]).finite(),
            decreases 6 - i,
        {
            if !self.offsets[i].is_finite() {
                offsets = false;
            }
            i = i + 1;
        }
        lengths && offsets
    }
}

} // verus!
