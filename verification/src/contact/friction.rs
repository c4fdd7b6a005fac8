//! Friction model selection for contacts.

use vstd::prelude::*;

verus! {

/// Friction model used at a contact.
#[derive(Clone, Copy, Debug, PartialEq, Eq)]
pub enum FrictionModel {
    Coulomb,
    SmoothCoulomb,
    Stribeck,
}

} // verus!
