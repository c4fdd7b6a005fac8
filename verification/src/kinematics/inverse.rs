//! Inverse kinematics branch selection.

use vstd::prelude::*;

verus! {

/// Elbow branch of a closed-form inverse-kinematics solution.
#[derive(Clone, Copy, Debug, PartialEq, Eq)]
pub enum ElbowConfig {
    Up,
    Down,
}

} // verus!
