//! System-level logic: counting generalized coordinates, actuator kinds and
//! time-integration schemes.

pub mod actuators;
pub mod dofs;
pub mod integration;
