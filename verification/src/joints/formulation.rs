//! Coordinate formulations for multibody systems.

use vstd::prelude::*;
use crate::joints::joint::JointType;

verus! {

/// Sum of the DOF counts of the given joints.
pub open spec fn sum_joint_dofs(joints: Seq<JointType>) -> int
    decreases joints.len(),
{
    if joints.len() == 0 {
        0
    } else {
        sum_joint_dofs(joints.drop_last()) + joints.last().num_dofs
    }
}

/// DOF counts add up joint by joint: no joints have no DOFs, and adding a
/// joint adds its own DOFs to the sum.
pub proof fn lemma_joint_dofs_add_up(joints: Seq<JointType>, joint: JointType)
    ensures
        sum_joint_dofs(Seq::<JointType>::empty()) == 0,
        sum_joint_dofs(joints.push(joint)) == sum_joint_dofs(joints) + joint.num_dofs,
{
    assert(joints.push(joint).drop_last() =~= joints);
}

/// A prefix never sums to more than the whole sequence.
proof fn lemma_sum_prefix(joints: Seq<JointType>, i: int)
    requires
        0 <= i <= joints.len(),
    ensures
        0 <= sum_joint_dofs(joints.take(i)) <= sum_joint_dofs(joints),
    decreases joints.len(),
{
    if i < joints.len() {
        assert(joints.take(i) =~= joints.drop_last().take(i));
        lemma_sum_prefix(joints.drop_last(), i);
    } else {
        assert(joints.take(i) =~= joints);
        lemma_sum_nonneg(joints);
    }
}

/// DOF sums are never negative.
proof fn lemma_sum_nonneg(joints: Seq<JointType>)
    ensures
        sum_joint_dofs(joints) >= 0,
    decreases joints.len(),
{
    if joints.len() > 0 {
        lemma_sum_nonneg(joints.drop_last());
    }
}

/// A minimal-coordinate (reduced) formulation for a multibody system.
///
/// The system is parameterized by independent joint coordinates only: the
/// base body has 6 DOFs and each joint adds its own, so a system of `m`
/// joints has `6 + Σ joint.num_dofs` generalized coordinates and `m + 1`
/// bodies.
#[derive(Clone, Debug, PartialEq, Eq)]
pub struct MinimalCoordinateFormulation {
    /// Joint types in tree order (body 1 .. body n).
    pub joints: Vec<JointType>,
    /// Number of independent generalized coordinates.
    pub num_dofs: usize,
}

impl MinimalCoordinateFormulation {
    /// Create a new minimal-coordinate formulation.
    pub fn new(joints: Vec<JointType>) -> (f: Self)
        requires
            6 + sum_joint_dofs(joints@) <= usize::MAX,
        ensures
            f.joints@ == joints@,
            f.num_dofs == 6 + sum_joint_dofs(joints@),
    {
        let mut total: usize = 0;
        let mut i: usize = 0;
        while i < joints.len()
            invariant
                i <= joints@.len(),
                total == sum_joint_dofs(joints@.take(i as int)),
                6 + sum_joint_dofs(joints@) <= usize::MAX,
            decreases joints@.len() - i,
        {
            proof {
                assert(joints@.take(i as int + 1).drop_last() =~= joints@.take(i as int));
                lemma_sum_prefix(joints@, i as int + 1);
            }
            total = total + joints[i].num_dofs;
            i = i + 1;
        }
        assert(joints@.take(joints@.len() as int) =~= joints@);
        let num_dofs = 6 + total;
        Self { joints, num_dofs }
    }

    /// Get the number of joints.
    pub fn num_joints(&self) -> (n: usize)
        ensures
            n == self.joints@.len(),
    {
        self.joints.len()
    }

    /// Get the number of bodies (base + one per joint).
    pub fn num_bodies(&self) -> (n: usize)
        requires
            self.joints@.len() < usize::MAX,
        ensures
            n == 1 + self.joints@.len(),
    {
        1 + self.joints.len()
    }

    /// Get the DOF count for a specific joint by index; 0 past the last joint.
    pub fn joint_dofs(&self, joint_idx: usize) -> (d: usize)
        ensures
            d == (if joint_idx < self.joints@.len() {
                self.joints@[joint_idx as int].num_dofs
            } else {
                0
            }),
    {
        if joint_idx < self.joints.len() {
            self.joints[joint_idx].num_dofs
        } else {
            0
        }
    }
}

/// Index of the first coordinate of joint `b` in the joint-space vector:
/// the six base coordinates come first, then each earlier joint's DOFs.
pub open spec fn coordinate_offset(joints: Seq<JointType>, b: int) -> int {
    6 + sum_joint_dofs(joints.take(b))
}

/// The joint-space vector is long enough to hold every coordinate of joint `b`.
pub open spec fn joint_fits(joints: Seq<JointType>, q_len: nat, b: int) -> bool {
    coordinate_offset(joints, b) + joints[b].num_dofs <= q_len
}

/// The full state vector after the base block and the first `b` joints have
/// been copied: every body owns a block of six entries; the base block takes
/// the first six joint-space coordinates when there are six, and joint `j`
/// writes its coordinates at the start of block `j + 1` when they are all
/// present; everything else is `zero`.
pub open spec fn full_coordinates<T>(joints: Seq<JointType>, q: Seq<T>, zero: T, b: nat) -> Seq<T>
    decreases b,
{
    if b == 0 {
        Seq::new(
            (6 * (joints.len() + 1)) as nat,
            |p: int|
                if p < 6 && q.len() >= 6 {
                    q[p]
                } else {
                    zero
                },
        )
    } else {
        let prev = full_coordinates(joints, q, zero, (b - 1) as nat);
        let j = b - 1;
        if joint_fits(joints, q.len(), j) {
            Seq::new(
                prev.len(),
                |p: int|
                    if 6 * b <= p < 6 * b + joints[j].num_dofs {
                        q[coordinate_offset(joints, j) + p - 6 * b]
                    } else {
                        prev[p]
                    },
            )
        } else {
            prev
        }
    }
}

/// Every joint whose coordinates are copied writes inside the state vector.
pub open spec fn writes_in_range(joints: Seq<JointType>, q_len: nat) -> bool {
    forall|b: int|
        0 <= b < joints.len() && #[trigger] joint_fits(joints, q_len, b) ==> 6 * (b + 1)
            + joints[b].num_dofs <= 6 * (joints.len() + 1)
}

/// Joint `b` has all its coordinates in a joint-space vector of length
/// `q_len`, and copies one of them to position `p` of the full state
/// vector: its coordinates go to the start of block `b + 1`.
pub open spec fn joint_writes(joints: Seq<JointType>, q_len: nat, b: int, p: int) -> bool {
    &&& 0 <= b < joints.len()
    &&& joint_fits(joints, q_len, b)
    &&& 6 * (b + 1) <= p < 6 * (b + 1) + joints[b].num_dofs
}

proof fn lemma_full_len<T>(joints: Seq<JointType>, q: Seq<T>, zero: T, b: nat)
    ensures
        full_coordinates(joints, q, zero, b).len() == 6 * (joints.len() + 1),
    decreases b,
{
    if b > 0 {
        lemma_full_len(joints, q, zero, (b - 1) as nat);
    }
}

impl MinimalCoordinateFormulation {
    /// Map joint-space coordinates to a full 6n state vector.
    ///
    /// `q_joint` contains `[base_6_dofs, joint_1_dofs, ..., joint_m_dofs]`.
    /// Returns a flat vector of length `6 * num_bodies`, with `zero` wherever
    /// no coordinate is copied.
    pub fn joint_to_full<T: Copy>(&self, q_joint: &[T], zero: T) -> (q_full: Vec<T>)
        requires
            6 * (self.joints@.len() + 1) <= usize::MAX,
            6 + sum_joint_dofs(self.joints@) <= usize::MAX,
            writes_in_range(self.joints@, q_joint@.len()),
        ensures
            q_full@.len() == 6 * (self.joints@.len() + 1),
            forall|p: int|
                0 <= p < q_full@.len() && (forall|b: int| !#[trigger] joint_writes(self.joints@, q_joint@.len(), b, p))
                    ==> #[trigger] q_full@[p] == (if p < 6 && q_joint@.len() >= 6 {
                    q_joint@[p]
                } else {
                    zero
                }),
            forall|b: int, p: int|
                #[trigger] joint_writes(self.joints@, q_joint@.len(), b, p) && (forall|c: int|
                    b < c ==> !#[trigger] joint_writes(self.joints@, q_joint@.len(), c, p)) ==> q_full@[p]
                    == q_joint@[coordinate_offset(self.joints@, b) + p - 6 * (b + 1)],
    {
        let ghost joints = self.joints@;
        let ghost q = q_joint@;
        let n = self.num_bodies();
        let total = n * 6;
        let mut q_full: Vec<T> = Vec::new();
        let mut p: usize = 0;
        while p < total
            invariant
                p <= total,
                q_full@.len() == p,
                forall|k: int| 0 <= k < p ==> #[trigger] q_full@[k] == zero,
            decreases total - p,
        {
            q_full.push(zero);
            p = p + 1;
        }

        if q_joint.len() >= 6 {
            let mut i: usize = 0;
            while i < 6
                invariant
                    i <= 6,
                    q.len() >= 6,
                    q_joint@ == q,
                    q_full@.len() == total,
                    total >= 6,
                    forall|k: int| 0 <= k < total ==> #[trigger] q_full@[k] == (if k < i {
                        q[k]
                    } else {
                        zero
                    }),
                decreases 6 - i,
            {
                q_full.set(i, q_joint[i]);
                i = i + 1;
            }
        }
        assert(q_full@ =~= full_coordinates(joints, q, zero, 0));

        let mut offset: usize = 6;
        let mut jq_offset: usize = 6;
        let mut b: usize = 0;
        while b < self.joints.len()
            invariant
                joints == self.joints@,
                q == q_joint@,
                b <= joints.len(),
                total == 6 * (joints.len() + 1),
                offset == 6 * (b + 1),
                jq_offset == coordinate_offset(joints, b as int),
                6 + sum_joint_dofs(joints) <= usize::MAX,
                writes_in_range(joints, q.len()),
                q_full@ == full_coordinates(joints, q, zero, b as nat),
            decreases joints.len() - b,
        {
            proof {
                assert(joints.take(b as int + 1).drop_last() =~= joints.take(b as int));
                lemma_sum_prefix(joints, b as int + 1);
                lemma_full_len(joints, q, zero, b as nat);
            }
            let dofs = self.joints[b].num_dofs;
            let ghost prev = q_full@;
            if jq_offset + dofs <= q_joint.len() {
                assert(joint_fits(joints, q.len(), b as int));
                let mut i: usize = 0;
                while i < dofs
                    invariant
                        i <= dofs,
                        b < joints.len(),
                        q.len() == q_joint.len(),
                        dofs == joints[b as int].num_dofs,
                        offset == 6 * (b + 1),
                        offset + dofs <= total,
                        jq_offset + dofs <= q.len(),
                        jq_offset == coordinate_offset(joints, b as int),
                        q == q_joint@,
                        prev.len() == total,
                        q_full@ == Seq::new(
                            prev.len(),
                            |p: int|
                                if offset <= p < offset + i {
                                    q[jq_offset + p - offset]
                                } else {
                                    prev[p]
                                },
                        ),
                    decreases dofs - i,
                {
                    q_full.set(offset + i, q_joint[jq_offset + i]);
                    i = i + 1;
                    assert(q_full@ =~= Seq::new(
                        prev.len(),
                        |p: int|
                            if offset <= p < offset + i {
                                q[jq_offset + p - offset]
                            } else {
                                prev[p]
                            },
                    ));
                }
                assert(q_full@ =~= full_coordinates(joints, q, zero, (b + 1) as nat));
            } else {
                assert(q_full@ =~= full_coordinates(joints, q, zero, (b + 1) as nat));
            }
            offset = offset + 6;
            jq_offset = jq_offset + dofs;
            b = b + 1;
        }
        proof {
            lemma_full_coordinates_direct(joints, q, zero, joints.len());
        }
        q_full
    }
}

/// What position `p` of the full state vector holds once the first `m`
/// joints are copied: the coordinate written by the last of them that
/// writes there, or else the base coordinate or `zero`.
proof fn lemma_full_coordinates_direct<T>(joints: Seq<JointType>, q: Seq<T>, zero: T, m: nat)
    requires
        m <= joints.len(),
        writes_in_range(joints, q.len()),
    ensures
        full_coordinates(joints, q, zero, m).len() == 6 * (joints.len() + 1),
        forall|p: int|
            0 <= p < 6 * (joints.len() + 1) && (forall|b: int| b < m ==> !#[trigger] joint_writes(joints, q.len(), b, p))
                ==> #[trigger] full_coordinates(joints, q, zero, m)[p] == (if p < 6 && q.len() >= 6 {
                q[p]
            } else {
                zero
            }),
        forall|b: int, p: int|
            b < m && #[trigger] joint_writes(joints, q.len(), b, p) && (forall|c: int|
                b < c < m ==> !#[trigger] joint_writes(joints, q.len(), c, p)) ==> full_coordinates(joints, q, zero, m)[p]
                == q[coordinate_offset(joints, b) + p - 6 * (b + 1)],
    decreases m,
{
    lemma_full_len(joints, q, zero, m);
    if m > 0 {
        let j = m - 1;
        lemma_full_coordinates_direct(joints, q, zero, j as nat);
        let prev = full_coordinates(joints, q, zero, j as nat);
        let cur = full_coordinates(joints, q, zero, m);
        assert forall|p: int|
            0 <= p < 6 * (joints.len() + 1) && (forall|b: int| b < m ==> !#[trigger] joint_writes(joints, q.len(), b, p))
                implies #[trigger] cur[p] == (if p < 6 && q.len() >= 6 {
            q[p]
        } else {
            zero
        }) by {
            assert(!joint_writes(joints, q.len(), j, p));
            assert(cur[p] == prev[p]);
        }
        assert forall|b: int, p: int|
            b < m && #[trigger] joint_writes(joints, q.len(), b, p) && (forall|c: int|
                b < c < m ==> !#[trigger] joint_writes(joints, q.len(), c, p)) implies cur[p]
                == q[coordinate_offset(joints, b) + p - 6 * (b + 1)] by {
            assert(joint_fits(joints, q.len(), b));
            assert(p < 6 * (joints.len() + 1));
            if b < j {
                assert(!joint_writes(joints, q.len(), j, p));
                assert(cur[p] == prev[p]);
            }
        }
    }
}

/// Formulation type selector.
#[derive(Clone, Copy, Debug, PartialEq, Eq)]
pub enum Formulation {
    /// Reduced-coordinate (joint-space) formulation.
    Minimal,
    /// Full-coordinate (body-space) formulation with Lagrange multipliers.
    Maximal,
}

} // verus!
