use tpt_mbd::joints::constraint::{
    CylindricalConstraint, FixedConstraint, PlanarConstraint, SphericalConstraint, UniversalConstraint,
};
use tpt_mbd::joints::joint::{JointAxis, JointDof, JointType};
use tpt_mbd::joints::stabilization::CoordinatePartitioning;

#[test]
fn constraints_count_their_equations() {
    let s = SphericalConstraint::new(0, 1);
    assert_eq!((s.body_i, s.body_j), (0, 1));
    assert_eq!(s.num_constraints(), 3);
    assert_eq!(s.joint_type(), JointType::spherical());

    let u = UniversalConstraint::new(1, 2, JointAxis::X, JointAxis::Y);
    assert_eq!((u.axis_1, u.axis_2), (JointAxis::X, JointAxis::Y));
    assert_eq!(u.num_constraints(), 3);
    assert_eq!(u.joint_type().num_dofs, 2);

    let c = CylindricalConstraint::new(0, 2, JointAxis::Y);
    assert_eq!(c.axis, JointAxis::Y);
    assert_eq!(c.num_constraints(), 2);
    assert_eq!(c.joint_type().dof, JointDof::Cylindrical);

    let p = PlanarConstraint::new(3, 4, JointAxis::Z);
    assert_eq!(p.normal, JointAxis::Z);
    assert_eq!(p.num_constraints(), 1);
    assert_eq!(p.joint_type(), JointType::planar());

    let f = FixedConstraint::new(5, 6);
    assert_eq!(f.num_constraints(), 6);
    assert_eq!(f.joint_type().num_dofs, 0);
}

#[test]
fn joint_types_carry_their_dof_counts() {
    assert_eq!(JointType::revolute().num_dofs, 1);
    assert_eq!(JointType::revolute().axis, Some(JointAxis::Z));
    assert_eq!(JointType::prismatic().num_dofs, 1);
    assert_eq!(JointType::spherical().axis, None);
    assert_eq!(JointType::universal().num_dofs, 2);
    assert_eq!(JointType::cylindrical().num_dofs, 2);
    assert_eq!(JointType::planar().num_dofs, 3);
    assert_eq!(JointType::fixed().dof, JointDof::Fixed);
}

#[test]
fn partition_lists_free_dofs_in_order() {
    let p = CoordinatePartitioning::new(6, vec![4, 1]);
    assert_eq!(p.independent, vec![0, 2, 3, 5]);
    assert_eq!(p.dependent, vec![4, 1]);
    assert_eq!(p.num_independent(), 4);
    assert_eq!(p.num_dependent(), 2);
    assert_eq!(p.total(), 6);
}

#[test]
fn partition_ignores_dependent_dofs_out_of_range() {
    let p = CoordinatePartitioning::new(3, vec![7]);
    assert_eq!(p.independent, vec![0, 1, 2]);
    assert_eq!(p.total(), 4);
}

#[test]
fn partition_of_nothing() {
    let p = CoordinatePartitioning::new(0, Vec::new());
    assert!(p.independent.is_empty());
    assert_eq!(p.total(), 0);
}
