//! Joint types for multibody systems: revolute, prismatic, spherical,
//! universal, cylindrical, planar, fixed and custom joints.

use vstd::prelude::*;

verus! {

/// Degrees of freedom for a joint.
#[derive(Clone, Copy, Debug, PartialEq, Eq)]
pub enum JointDof {
    Fixed,
    Revolute,
    Prismatic,
    Spherical,
    Universal,
    Cylindrical,
    Planar,
    Custom,
}

/// Axis direction for 1-DOF joints.
#[derive(Clone, Copy, Debug, PartialEq, Eq)]
pub enum JointAxis {
    X,
    Y,
    Z,
}

/// A joint type identifier with its DOF count and axis.
#[derive(Clone, Copy, Debug, PartialEq, Eq)]
pub struct JointType {
    pub dof: JointDof,
    pub axis: Option<JointAxis>,
    pub num_dofs: usize,
}

impl JointType {
    /// Revolute joint: one rotation about Z.
    pub fn revolute() -> (j: Self)
        ensures
            j == (JointType { dof: JointDof::Revolute, axis: Some(JointAxis::Z), num_dofs: 1 }),
    {
        JointType { dof: JointDof::Revolute, axis: Some(JointAxis::Z), num_dofs: 1 }
    }

    /// Prismatic joint: one translation along Z.
    pub fn prismatic() -> (j: Self)
        ensures
            j == (JointType { dof: JointDof::Prismatic, axis: Some(JointAxis::Z), num_dofs: 1 }),
    {
        JointType { dof: JointDof::Prismatic, axis: Some(JointAxis::Z), num_dofs: 1 }
    }

    /// Spherical (ball) joint: three rotations.
    pub fn spherical() -> (j: Self)
        ensures
            j == (JointType { dof: JointDof::Spherical, axis: None, num_dofs: 3 }),
    {
        JointType { dof: JointDof::Spherical, axis: None, num_dofs: 3 }
    }

    /// Universal (Cardan) joint: two rotations.
    pub fn universal() -> (j: Self)
        ensures
            j == (JointType { dof: JointDof::Universal, axis: None, num_dofs: 2 }),
    {
        JointType { dof: JointDof::Universal, axis: None, num_dofs: 2 }
    }

    /// Cylindrical joint: rotation about and translation along Z.
    pub fn cylindrical() -> (j: Self)
        ensures
            j == (JointType { dof: JointDof::Cylindrical, axis: Some(JointAxis::Z), num_dofs: 2 }),
    {
        JointType { dof: JointDof::Cylindrical, axis: Some(JointAxis::Z), num_dofs: 2 }
    }

    /// Planar joint: two translations and one rotation.
    pub fn planar() -> (j: Self)
        ensures
            j == (JointType { dof: JointDof::Planar, axis: None, num_dofs: 3 }),
    {
        JointType { dof: JointDof::Planar, axis: None, num_dofs: 3 }
    }

    /// Fixed (weld) joint: no relative motion.
    pub fn fixed() -> (j: Self)
        ensures
            j == (JointType { dof: JointDof::Fixed, axis: None, num_dofs: 0 }),
    {
        JointType { dof: JointDof::Fixed, axis: None, num_dofs: 0 }
    }
}

/// Status of a joint limit check.
#[derive(Clone, Copy, Debug, PartialEq, Eq)]
pub enum LimitStatus {
    Inside,
    Approaching,
    Violated,
    HardStop,
}

} // verus!
