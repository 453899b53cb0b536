//! Mapping between a manufacturer's joint angles and the solver's own.
//!
//! For each joint, `internal = joint * direction - offset` and, back,
//! `joint = (internal + offset) * direction`.
use crate::addition::lemma_sum_with_zero;
use crate::multiplication::{lemma_product_with_unit, product};
use crate::single::Single;
use crate::types::{JointState, Parameters, RotationDirection};
use vstd::prelude::*;

verus! {

/// The solver's angle for one joint.
pub open spec fn internal_angle(
    joint: Single,
    direction: RotationDirection,
    offset: Single,
) -> Single {
    joint.times(direction.multiplier()).minus(offset)
}

/// The manufacturer's angle for one joint.
pub open spec fn manufacturer_angle(
    internal: Single,
    direction: RotationDirection,
    offset: Single,
) -> Single {
    internal.plus(offset).times(direction.multiplier())
}

/// The solver's angles for all six joints.
pub open spec fn internal_joints(p: Parameters, qs: JointState) -> JointState {
    JointState(
        internal_angle(qs.0, p.sign_corrections.0, p.offsets[0]),
        internal_angle(qs.1, p.sign_corrections.1, p.offsets[1]),
        internal_angle(qs.2, p.sign_corrections.2, p.offsets[2]),
        internal_angle(qs.3, p.sign_corrections.3, p.offsets[3]),
        internal_angle(qs.4, p.sign_corrections.4, p.offsets[4]),
        internal_angle(qs.5, p.sign_corrections.5, p.offsets[5]),
    )
}

/// The manufacturer's angles for all six joints.
pub open spec fn manufacturer_joints(p: Parameters, qs: JointState) -> JointState {
    JointState(
        manufacturer_angle(qs.0, p.sign_corrections.0, p.offsets[0]),
        manufacturer_angle(qs.1, p.sign_corrections.1, p.offsets[1]),
        manufacturer_angle(qs.2, p.sign_corrections.2, p.offsets[2]),
        manufacturer_angle(qs.3, p.sign_corrections.3, p.offsets[3]),
        manufacturer_angle(qs.4, p.sign_corrections.4, p.offsets[4]),
        manufacturer_angle(qs.5, p.sign_corrections.5, p.offsets[5]),
    )
}

/// Converts manufacturer angles to the solver's convention.
pub fn to_internal(p: &Parameters, qs: &JointState) -> (r: JointState)
    ensures
        r == internal_joints(*p, *qs),
{
    let sc = &p.sign_corrections;
    JointState(
        qs.0.mul(sc.0.to_single()).sub(p.offsets[0]),
        qs.1.mul(sc.1.to_single()).sub(p.offsets[1]),
        qs.2.mul(sc.2.to_single()).sub(p.offsets[2]),
        qs.3.mul(sc.3.to_single()).sub(p.offsets[3]),
        qs.4.mul(sc.4.to_single()).sub(p.offsets[4]),
        qs.5.mul(sc.5.to_single()).sub(p.offsets[5]),
    )
}

/// Converts solver angles to the manufacturer's convention.
pub fn to_manufacturer(p: &Parameters, qs: &JointState) -> (r: JointState)
    ensures
        r == manufacturer_joints(*p, *qs),
{
    let sc = &p.sign_corrections;
    JointState(
        qs.0.add(p.offsets[0]).mul(sc.0.to_single()),
        qs.1.add(p.offsets[1]).mul(sc.1.to_single()),
        qs.2.add(p.offsets[2]).mul(sc.2.to_single()),
        qs.3.add(p.offsets[3]).mul(sc.3.to_single()),
        qs.4.add(p.offsets[4]).mul(sc.4.to_single()),
        qs.5.add(p.offsets[5]).mul(sc.5.to_single()),
    )
}

/// Reversing a joint's direction and negating its angle cancel: the
/// solver sees the same angle.
pub proof fn lemma_reversed_direction_cancels_negation(
    joint: Single,
    direction: RotationDirection,
    offset: Single,
)
    ensures
        internal_angle(joint.negated(), direction.flipped(), offset) == internal_angle(
            joint,
            direction,
            offset,
        ),
{
    reveal(product);
}

/// Two geometries that differ only in the direction of rotation of some
/// joints give the same solver angles to joint states that differ only in
/// the sign of those joints' angles.
pub proof fn lemma_direction_convention(pa: Parameters, qa: JointState, pb: Parameters, qb: JointState)
    requires
        pa.offsets == pb.offsets,
        forall|i: int|
            0 <= i < 6 ==> {
                ||| (#[trigger] pb.sign_corrections@[i] == pa.sign_corrections@[i] && qb@[i]
                    == qa@[i])
                ||| (pb.sign_corrections@[i] == pa.sign_corrections@[i].flipped() && qb@[i]
                    == qa@[i].negated())
            },
    ensures
        internal_joints(pb, qb) == internal_joints(pa, qa),
{
    assert forall|i: int| 0 <= i < 6 implies internal_angle(
        qb@[i],
        pb.sign_corrections@[i],
        pb.offsets[i],
    ) == internal_angle(qa@[i], #[trigger] pa.sign_corrections@[i], pa.offsets[i]) by {
        lemma_reversed_direction_cancels_negation(
            qa@[i],
            pa.sign_corrections@[i],
            pa.offsets[i],
        );
    }
    assert(pa.sign_corrections@[0] == pa.sign_corrections.0);
    assert(pa.sign_corrections@[1] == pa.sign_corrections.1);
    assert(pa.sign_corrections@[2] == pa.sign_corrections.2);
    assert(pa.sign_corrections@[3] == pa.sign_corrections.3);
    assert(pa.sign_corrections@[4] == pa.sign_corrections.4);
    assert(pa.sign_corrections@[5] == pa.sign_corrections.5);
    assert(qa@[0] == qa.0 && qb@[0] == qb.0 && pb.sign_corrections@[0] == pb.sign_corrections.0);
    assert(qa@[1] == qa.1 && qb@[1] == qb.1 && pb.sign_corrections@[1] == pb.sign_corrections.1);
    assert(qa@[2] == qa.2 && qb@[2] == qb.2 && pb.sign_corrections@[2] == pb.sign_corrections.2);
    assert(qa@[3] == qa.3 && qb@[3] == qb.3 && pb.sign_corrections@[3] == pb.sign_corrections.3);
    assert(qa@[4] == qa.4 && qb@[4] == qb.4 && pb.sign_corrections@[4] == pb.sign_corrections.4);
    assert(qa@[5] == qa.5 && qb@[5] == qb.5 && pb.sign_corrections@[5] == pb.sign_corrections.5);
}

/// Where the offset is zero the two mappings undo each other: an angle
/// taken to the solver's convention and back is the same angle.  (A zero
/// comes back as a zero, not always of the same sign.)
pub proof fn lemma_conventions_invert(joint: Single, direction: RotationDirection)
    requires
        !joint.is_nan(),
    ensures
        ({
            let zero = Single::spec_positive_zero();
            let back = manufacturer_angle(internal_angle(joint, direction, zero), direction, zero);
            if joint.is_zero() {
                back.is_zero()
            } else {
                back == joint
            }
        }),
{
    let zero = Single::spec_positive_zero();
    lemma_product_with_unit(joint);
    let turned = joint.times(direction.multiplier());
    assert(turned == joint || turned == joint.negated());
    lemma_sum_with_zero(turned, zero.negated());
    let internal = internal_angle(joint, direction, zero);
    assert(internal == turned);
    lemma_sum_with_zero(internal, zero);
    lemma_product_with_unit(internal.plus(zero));
    assert(joint.negated().negated() == joint);
}

} // verus!
