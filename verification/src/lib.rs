//! Verified combinatorial core of a multibody-dynamics toolkit: quantized
//! axis-aligned boxes, a bounding-volume hierarchy for broad-phase collision
//! detection, the topology of the frame tree, joint and coordinate
//! bookkeeping, and report formatting.

pub mod contact;
pub mod frame;
pub mod geometry;
pub mod joints;
pub mod kinematics;
pub mod system;
pub mod validation;
