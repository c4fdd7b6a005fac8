//! Joint friction regimes.

use vstd::prelude::*;

verus! {

/// Whether a joint's friction is holding (static) or sliding (kinetic).
#[derive(Clone, Copy, Debug, PartialEq, Eq)]
pub enum FrictionRegime {
    Static,
    Kinetic,
}

} // verus!
