//! Serial-manipulator kinematics: inverse-kinematics branch selection and
//! singularity classification.

pub mod inverse;
pub mod singularity;
