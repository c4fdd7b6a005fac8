use tpt_mbd::joints::joint::JointType;
use tpt_mbd::system::dofs::count_dofs;

#[test]
fn empty_system_has_no_dofs() {
    assert_eq!(count_dofs(0, &[], &[]), 0);
    assert_eq!(count_dofs(0, &[JointType::revolute()], &[]), 0);
}

#[test]
fn free_bodies_have_six_dofs_each() {
    assert_eq!(count_dofs(3, &[], &[]), 18);
}

#[test]
fn joints_remove_their_constrained_dofs() {
    // Two bodies joined by a revolute joint: 12 - 5 = 7.
    assert_eq!(count_dofs(2, &[JointType::revolute()], &[]), 7);
    // A fixed joint and a spherical joint among three bodies: 18 - 6 - 3 = 9.
    assert_eq!(count_dofs(3, &[JointType::fixed(), JointType::spherical()], &[]), 9);
}

#[test]
fn dof_count_never_drops_below_zero() {
    let joints = [JointType::fixed(), JointType::fixed(), JointType::fixed()];
    assert_eq!(count_dofs(1, &joints, &[4]), 4);
}

#[test]
fn flexible_modes_add_on_top() {
    assert_eq!(count_dofs(2, &[JointType::revolute()], &[3, 2]), 12);
    assert_eq!(count_dofs(0, &[], &[5]), 5);
    assert_eq!(count_dofs(1, &[], &[usize::MAX]), usize::MAX);
}
