//! Holonomic joint constraints between pairs of bodies: which bodies they
//! connect, how many constraint equations they impose and which joint type
//! they model.
//!
//! - [`SphericalConstraint`] — ball-and-socket (3 position constraints)
//! - [`UniversalConstraint`] — two orthogonal revolute axes (3 position constraints)
//! - [`CylindricalConstraint`] — revolute + prismatic along one axis (2 position constraints)
//! - [`PlanarConstraint`] — motion constrained to a plane (1 position constraint)
//! - [`FixedConstraint`] — fully fixed relative pose (6 constraints)

use vstd::prelude::*;
use crate::joints::joint::{JointAxis, JointType, JointDof};

verus! {

/// Spherical (ball-and-socket) joint constraint: coincident origins.
#[derive(Clone, Copy, Debug, PartialEq, Eq)]
pub struct SphericalConstraint {
    pub body_i: usize,
    pub body_j: usize,
}

impl SphericalConstraint {
    /// Create a new spherical constraint.
    pub fn new(body_i: usize, body_j: usize) -> (c: Self)
        ensures
            c.body_i == body_i,
            c.body_j == body_j,
    {
        Self { body_i, body_j }
    }

    /// The number of constraint equations.
    pub fn num_constraints(&self) -> (n: usize)
        ensures
            n == 3,
    {
        3
    }

    /// The joint type.
    pub fn joint_type(&self) -> (j: JointType)
        ensures
            j == (JointType { dof: JointDof::Spherical, axis: None, num_dofs: 3 }),
    {
        JointType::spherical()
    }
}

/// Universal (Cardan) joint constraint: two orthogonal revolute axes with
/// coincident origins.
#[derive(Clone, Copy, Debug, PartialEq, Eq)]
pub struct UniversalConstraint {
    pub body_i: usize,
    pub body_j: usize,
    pub axis_1: JointAxis,
    pub axis_2: JointAxis,
}

impl UniversalConstraint {
    /// Create a new universal constraint.
    pub fn new(body_i: usize, body_j: usize, axis_1: JointAxis, axis_2: JointAxis) -> (c: Self)
        ensures
            c.body_i == body_i,
            c.body_j == body_j,
            c.axis_1 == axis_1,
            c.axis_2 == axis_2,
    {
        Self { body_i, body_j, axis_1, axis_2 }
    }

    /// The number of constraint equations.
    pub fn num_constraints(&self) -> (n: usize)
        ensures
            n == 3,
    {
        3
    }

    /// The joint type.
    pub fn joint_type(&self) -> (j: JointType)
        ensures
            j == (JointType { dof: JointDof::Universal, axis: None, num_dofs: 2 }),
    {
        JointType::universal()
    }
}

/// Cylindrical joint constraint: one revolute and one prismatic freedom
/// along the same axis.
#[derive(Clone, Copy, Debug, PartialEq, Eq)]
pub struct CylindricalConstraint {
    pub body_i: usize,
    pub body_j: usize,
    pub axis: JointAxis,
}

impl CylindricalConstraint {
    /// Create a new cylindrical constraint.
    pub fn new(body_i: usize, body_j: usize, axis: JointAxis) -> (c: Self)
        ensures
            c.body_i == body_i,
            c.body_j == body_j,
            c.axis == axis,
    {
        Self { body_i, body_j, axis }
    }

    /// The number of constraint equations.
    pub fn num_constraints(&self) -> (n: usize)
        ensures
            n == 2,
    {
        2
    }

    /// The joint type.
    pub fn joint_type(&self) -> (j: JointType)
        ensures
            j == (JointType { dof: JointDof::Cylindrical, axis: Some(JointAxis::Z), num_dofs: 2 }),
    {
        JointType::cylindrical()
    }
}

/// Planar joint constraint: both bodies share their origin along the plane
/// normal.
#[derive(Clone, Copy, Debug, PartialEq, Eq)]
pub struct PlanarConstraint {
    pub body_i: usize,
    pub body_j: usize,
    pub normal: JointAxis,
}

impl PlanarConstraint {
    /// Create a new planar constraint.
    pub fn new(body_i: usize, body_j: usize, normal: JointAxis) -> (c: Self)
        ensures
            c.body_i == body_i,
            c.body_j == body_j,
            c.normal == normal,
    {
        Self { body_i, body_j, normal }
    }

    /// The number of constraint equations.
    pub fn num_constraints(&self) -> (n: usize)
        ensures
            n == 1,
    {
        1
    }

    /// The joint type.
    pub fn joint_type(&self) -> (j: JointType)
        ensures
            j == (JointType { dof: JointDof::Planar, axis: None, num_dofs: 3 }),
    {
        JointType::planar()
    }
}

/// Fixed (weld) joint constraint: fully fixed relative pose.
#[derive(Clone, Copy, Debug, PartialEq, Eq)]
pub struct FixedConstraint {
    pub body_i: usize,
    pub body_j: usize,
}

impl FixedConstraint {
    /// Create a new fixed constraint.
    pub fn new(body_i: usize, body_j: usize) -> (c: Self)
        ensures
            c.body_i == body_i,
            c.body_j == body_j,
    {
        Self { body_i, body_j }
    }

    /// The number of constraint equations.
    pub fn num_constraints(&self) -> (n: usize)
        ensures
            n == 6,
    {
        6
    }

    /// The joint type.
    pub fn joint_type(&self) -> (j: JointType)
        ensures
            j == (JointType { dof: JointDof::Fixed, axis: None, num_dofs: 0 }),
    {
        JointType::fixed()
    }
}

} // verus!
