use tpt_mbd::joints::formulation::{Formulation, MinimalCoordinateFormulation};
use tpt_mbd::joints::joint::JointType;

#[test]
fn test_minimal_formulation_creation() {
    let joints = vec![JointType::revolute(), JointType::revolute()];
    let form = MinimalCoordinateFormulation::new(joints);
    assert_eq!(form.num_joints(), 2);
    assert_eq!(form.num_bodies(), 3);
    assert_eq!(form.num_dofs, 8);
}

#[test]
fn test_minimal_formulation_joint_dofs() {
    let joints = vec![JointType::revolute(), JointType::spherical()];
    let form = MinimalCoordinateFormulation::new(joints);
    assert_eq!(form.joint_dofs(0), 1);
    assert_eq!(form.joint_dofs(1), 3);
}

#[test]
fn test_formulation_enum() {
    let min = Formulation::Minimal;
    let max = Formulation::Maximal;
    assert_ne!(min, max);
}

#[test]
fn joint_dofs_past_the_last_joint_is_zero() {
    let form = MinimalCoordinateFormulation::new(vec![JointType::planar()]);
    assert_eq!(form.joint_dofs(1), 0);
    assert_eq!(form.joint_dofs(usize::MAX), 0);
}

#[test]
fn coordinate_count_is_base_plus_joint_dofs() {
    let joints = vec![
        JointType::revolute(),
        JointType::prismatic(),
        JointType::spherical(),
        JointType::universal(),
        JointType::cylindrical(),
        JointType::planar(),
        JointType::fixed(),
    ];
    let form = MinimalCoordinateFormulation::new(joints);
    assert_eq!(form.num_dofs, 6 + 1 + 1 + 3 + 2 + 2 + 3);
    let per_joint: usize = (0..form.num_joints()).map(|i| form.joint_dofs(i)).sum();
    assert_eq!(form.num_dofs, 6 + per_joint);
    assert_eq!(form.num_bodies(), 8);
}

#[test]
fn empty_formulation_is_the_free_base() {
    let form = MinimalCoordinateFormulation::new(Vec::new());
    assert_eq!(form.num_dofs, 6);
    assert_eq!(form.num_bodies(), 1);
}

#[test]
fn test_minimal_formulation_map_to_full() {
    let joints = vec![JointType::revolute()];
    let form = MinimalCoordinateFormulation::new(joints);
    let q_joint = vec![1.0, 2.0, 3.0, 4.0, 5.0, 6.0, 7.0];
    let q_full = form.joint_to_full(&q_joint, 0.0);
    assert_eq!(q_full.len(), 12);
    assert_eq!(q_full[0], 1.0);
    assert_eq!(q_full[6], 7.0);
}

#[test]
fn map_to_full_places_each_joint_in_its_body_block() {
    let joints = vec![JointType::spherical(), JointType::fixed(), JointType::universal()];
    let form = MinimalCoordinateFormulation::new(joints);
    let q_joint: Vec<i32> = (1..=11).collect();
    let q_full = form.joint_to_full(&q_joint, 0);
    assert_eq!(
        q_full,
        vec![1, 2, 3, 4, 5, 6, 7, 8, 9, 0, 0, 0, 0, 0, 0, 0, 0, 0, 10, 11, 0, 0, 0, 0]
    );
}

#[test]
fn map_to_full_leaves_missing_coordinates_at_zero() {
    let joints = vec![JointType::revolute(), JointType::spherical()];
    let form = MinimalCoordinateFormulation::new(joints);
    // Base and the revolute joint are present; the spherical joint's three
    // coordinates are not all there.
    let q_full = form.joint_to_full(&[1.0, 2.0, 3.0, 4.0, 5.0, 6.0, 7.0, 8.0], -1.0);
    assert_eq!(q_full.len(), 18);
    assert_eq!(&q_full[0..6], &[1.0, 2.0, 3.0, 4.0, 5.0, 6.0]);
    assert_eq!(&q_full[6..12], &[7.0, -1.0, -1.0, -1.0, -1.0, -1.0]);
    assert_eq!(&q_full[12..18], &[-1.0; 6]);
    let short = form.joint_to_full(&[1.0, 2.0], 0.0);
    assert_eq!(short, vec![0.0; 18]);
}
