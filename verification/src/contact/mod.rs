//! Contact mechanics and collision detection: bounding boxes, the
//! bounding-volume hierarchy of the broad phase, support maps, friction and
//! impact models.

pub mod bvh;
pub mod detection;
pub mod friction;
pub mod gjk;
pub mod impact;
