//! Time-integration schemes.

use vstd::prelude::*;

verus! {

/// Supported time integration schemes.
#[derive(Clone, Copy, Debug, PartialEq, Eq)]
pub enum Integrator {
    /// First-order accurate, symplectic. Good for real-time / games.
    SemiImplicitEuler,
    /// Second-order accurate, symplectic. Good for energy conservation.
    Verlet,
    /// Position Verlet variant with velocity at half-step.
    VelocityVerlet,
    /// RATTLE: SHAKE/RATTLE constrained extension of Verlet.
    Rattle,
    /// Generalized-α: high-frequency dissipation tunable via α_f, α_m.
    GeneralizedAlpha,
    /// HHT-α: Hilber-Hughes-Taylor with numerical dissipation.
    HhtAlpha,
    /// Newmark-β: unconditional stability for β ≥ 1/4, γ ≥ 1/2.
    NewmarkBeta,
}

/// Semi-implicit (symplectic) Euler integrator.
#[derive(Clone, Copy, Debug)]
pub struct SemiImplicitEuler;

/// Standard velocity Verlet integrator.
#[derive(Clone, Copy, Debug)]
pub struct Verlet;

/// Generalized-α integrator for high-frequency dissipation.
#[derive(Clone, Copy, Debug)]
pub struct GeneralizedAlpha;

/// HHT-α integrator.
#[derive(Clone, Copy, Debug)]
pub struct HhtAlpha;

/// Newmark-β integrator.
#[derive(Clone, Copy, Debug)]
pub struct NewmarkBeta;

/// RATTLE integrator for constrained systems.
#[derive(Clone, Copy, Debug)]
pub struct Rattle;

} // verus!
