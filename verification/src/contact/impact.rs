//! Impact handling.

use vstd::prelude::*;

verus! {

/// Impulse-based impact response using the coefficient of restitution.
#[derive(Clone, Copy, Debug)]
pub struct CoefficientOfRestitution;

} // verus!
