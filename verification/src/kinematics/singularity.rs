//! Singularity classification.

use vstd::prelude::*;

verus! {

/// Kind of kinematic singularity at a configuration.
#[derive(Clone, Copy, Debug, PartialEq, Eq)]
pub enum SingularityType {
    NoSingularity,
    Boundary,
    Interior,
    Decoupled,
}

} // verus!
