//! Counting the generalized coordinates of a multibody system.

use vstd::prelude::*;
use crate::joints::formulation::sum_joint_dofs;
use crate::joints::joint::JointType;

verus! {

/// Sum of the modal coordinate counts of the flexible bodies.
pub open spec fn sum_modes(modes: Seq<usize>) -> int
    decreases modes.len(),
{
    if modes.len() == 0 {
        0
    } else {
        sum_modes(modes.drop_last()) + modes.last()
    }
}

/// Modal counts add up body by body: no flexible bodies have no modes, and
/// adding one adds its modes to the sum.
pub proof fn lemma_modes_add_up(modes: Seq<usize>, m: usize)
    ensures
        sum_modes(Seq::<usize>::empty()) == 0,
        sum_modes(modes.push(m)) == sum_modes(modes) + m,
{
    assert(modes.push(m).drop_last() =~= modes);
}

/// The number of generalized coordinates of a system: six per rigid body,
/// less `6 - dofs` for each joint but never below zero, plus the modal
/// coordinates of each flexible body but never above `usize::MAX`.
pub open spec fn system_dofs(num_bodies: nat, joints: Seq<JointType>, modes: Seq<usize>) -> int {
    let rigid = 6 * num_bodies - (6 * joints.len() - sum_joint_dofs(joints));
    let total = (if rigid < 0 {
        0
    } else {
        rigid
    }) + sum_modes(modes);
    if total > usize::MAX {
        usize::MAX as int
    } else {
        total
    }
}

/// Joints of at most six DOFs each have at most six DOFs per joint in all.
proof fn lemma_joint_dofs_bounded(joints: Seq<JointType>)
    requires
        forall|j: int| 0 <= j < joints.len() ==> #[trigger] joints[j].num_dofs <= 6,
    ensures
        0 <= sum_joint_dofs(joints) <= 6 * joints.len(),
    decreases joints.len(),
{
    if joints.len() > 0 {
        lemma_joint_dofs_bounded(joints.drop_last());
        assert(joints.last().num_dofs <= 6);
    }
}

/// Modal coordinate counts never sum below zero.
proof fn lemma_modes_nonneg(modes: Seq<usize>)
    ensures
        sum_modes(modes) >= 0,
    decreases modes.len(),
{
    if modes.len() > 0 {
        lemma_modes_nonneg(modes.drop_last());
    }
}

/// Free rigid bodies, with no joints and no flexible bodies, have six
/// coordinates each.
pub proof fn lemma_free_bodies_have_six_dofs(num_bodies: nat)
    requires
        6 * num_bodies <= usize::MAX,
    ensures
        system_dofs(num_bodies, Seq::<JointType>::empty(), Seq::<usize>::empty()) == 6 * num_bodies,
{
    assert(sum_joint_dofs(Seq::<JointType>::empty()) == 0);
    assert(sum_modes(Seq::<usize>::empty()) == 0);
}

/// Every joint takes away the `6 - dofs` coordinates it constrains, down to
/// zero: adding a joint to a rigid system lowers its count by that much, or
/// to zero where fewer are left.
pub proof fn lemma_joint_removes_constrained_dofs(num_bodies: nat, joints: Seq<JointType>, joint: JointType)
    requires
        6 * num_bodies <= usize::MAX,
        forall|j: int| 0 <= j < joints.len() ==> #[trigger] joints[j].num_dofs <= 6,
        joint.num_dofs <= 6,
    ensures
        ({
            let before = system_dofs(num_bodies, joints, Seq::<usize>::empty());
            let after = system_dofs(num_bodies, joints.push(joint), Seq::<usize>::empty());
            &&& 0 <= after <= before
            &&& after == (if before - (6 - joint.num_dofs) < 0 {
                0
            } else {
                before - (6 - joint.num_dofs)
            })
        }),
{
    assert(joints.push(joint).drop_last() =~= joints);
    assert(sum_modes(Seq::<usize>::empty()) == 0);
    lemma_joint_dofs_bounded(joints);
    assert(sum_joint_dofs(joints.push(joint)) == sum_joint_dofs(joints) + joint.num_dofs);
}

/// Every flexible body adds its modes on top, up to `usize::MAX`.
pub proof fn lemma_flexible_body_adds_its_modes(
    num_bodies: nat,
    joints: Seq<JointType>,
    modes: Seq<usize>,
    m: usize,
)
    ensures
        ({
            let before = system_dofs(num_bodies, joints, modes);
            let after = system_dofs(num_bodies, joints, modes.push(m));
            after == (if before + m > usize::MAX {
                usize::MAX as int
            } else {
                before + m
            })
        }),
{
    assert(modes.push(m).drop_last() =~= modes);
    lemma_modes_nonneg(modes);
}

/// Count the generalized coordinates of a system of `num_bodies` rigid
/// bodies connected by `joints`, with flexible bodies of the given numbers
/// of modes.
///
/// Each rigid body contributes 6 DOFs in free space. Joints between bodies
/// reduce the total by `6 - joint.num_dofs` per joint. Flexible bodies add
/// their modal DOFs on top.
pub fn count_dofs(num_bodies: usize, joints: &[JointType], flexible_modes: &[usize]) -> (n: usize)
    requires
        6 * num_bodies <= usize::MAX,
        forall|j: int| 0 <= j < joints@.len() ==> #[trigger] joints@[j].num_dofs <= 6,
    ensures
        n == system_dofs(num_bodies as nat, joints@, flexible_modes@),
{
    proof {
        lemma_joint_dofs_bounded(joints@);
        lemma_modes_nonneg(flexible_modes@);
    }
    if num_bodies == 0 && flexible_modes.len() == 0 {
        assert(flexible_modes@ =~= Seq::<usize>::empty());
        return 0;
    }
    let mut total: usize = num_bodies * 6;
    let mut i: usize = 0;
    assert(joints@.take(0) =~= Seq::<JointType>::empty());
    while i < joints.len()
        invariant
            i <= joints@.len(),
            6 * num_bodies <= usize::MAX,
            forall|j: int| 0 <= j < joints@.len() ==> #[trigger] joints@[j].num_dofs <= 6,
            total as int == (if 6 * num_bodies - (6 * i - sum_joint_dofs(joints@.take(i as int))) < 0 {
                0
            } else {
                6 * num_bodies - (6 * i - sum_joint_dofs(joints@.take(i as int)))
            }),
        decreases joints@.len() - i,
    {
        assert(joints@[i as int].num_dofs <= 6);
        proof {
            assert(joints@.take(i as int + 1).drop_last() =~= joints@.take(i as int));
        }
        total = total.saturating_sub(6 - joints[i].num_dofs);
        i = i + 1;
    }
    assert(joints@.take(joints@.len() as int) =~= joints@);
    let ghost rigid = total as int;
    let mut k: usize = 0;
    assert(flexible_modes@.take(0) =~= Seq::<usize>::empty());
    while k < flexible_modes.len()
        invariant
            k <= flexible_modes@.len(),
            rigid >= 0,
            total as int == (if rigid + sum_modes(flexible_modes@.take(k as int)) > usize::MAX {
                usize::MAX as int
            } else {
                rigid + sum_modes(flexible_modes@.take(k as int))
            }),
        decreases flexible_modes@.len() - k,
    {
        proof {
            assert(flexible_modes@.take(k as int + 1).drop_last() =~= flexible_modes@.take(k as int));
            lemma_modes_nonneg(flexible_modes@.take(k as int));
        }
        total = total.saturating_add(flexible_modes[k]);
        k = k + 1;
    }
    assert(flexible_modes@.take(flexible_modes@.len() as int) =~= flexible_modes@);
    total
}

} // verus!
