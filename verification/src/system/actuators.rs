//! Actuator kinds.

use vstd::prelude::*;

verus! {

/// Actuator type enumeration.
#[derive(Clone, Copy, Debug, PartialEq, Eq)]
pub enum ActuatorType {
    /// Applies a prescribed force/torque with no dynamics.
    Ideal,
    /// Brushed/brushless DC motor with electrical dynamics.
    DcMotor,
    /// Hydraulic actuator with bulk modulus compliance.
    Hydraulic,
    /// Hill-type skeletal muscle with activation dynamics.
    HillMuscle,
}

} // verus!
