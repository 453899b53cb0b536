//! Kinematics of six-axis manipulators with an ortho-parallel basis and a
//! spherical wrist: the second and third axis are parallel, and the last
//! three meet in one point, the wrist centre.
//!
//! [`forward`] takes six joint angles to the pose of the tool flange;
//! [`inverse`] takes a pose to the eight sets of joint angles that reach
//! it: shoulder to the front or to the back, elbow up or down, wrist
//! flipped or not.  A set with an angle that is not finite stands for a
//! branch that cannot reach the pose.
//!
//! Numbers are in single precision.  A [`single::Single`] is held as its
//! encoding, and every operation on it is done in integers: sums,
//! products, quotients and square roots are rounded to nearest, ties to
//! even, and the contracts say so of the exact values.  Sines, cosines and
//! their inverses are the caller's to bring (see [`elementary`]).
pub mod addition;
pub mod bounds;
pub mod convention;
pub mod division;
pub mod elementary;
pub mod forward;
pub mod harmonize;
pub mod inverse;
pub mod linear;
pub mod multiplication;
pub mod root;
pub mod rounding;
pub mod single;
pub mod types;

pub use forward::forward;
pub use inverse::inverse;

use crate::harmonize::harmonized;
use crate::single::Single;
use crate::types::JointState;
use vstd::prelude::*;

verus! {

/// Whether all six angles of `qs` are finite.
pub fn is_valid(qs: &JointState) -> (r: bool)
    ensures
        r == qs.valid(),
{
    qs.is_valid()
}

/// Brings every angle of `qs` into `(-π, π]` by at most one whole turn.
pub fn harmonize_toward_zero(qs: &mut JointState)
    ensures
        final(qs)@ == old(qs)@.map_values(|q: Single| harmonized(q)),
{
    qs.harmonize_toward_zero()
}

} // verus!
