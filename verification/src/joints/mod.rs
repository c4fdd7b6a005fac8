//! Joint types, joint constraints and coordinate bookkeeping.

pub mod constraint;
pub mod formulation;
pub mod friction;
pub mod joint;
pub mod stabilization;
