//! The physics core of a fixed-step N-body gravity simulation.
//!
//! Point masses pull on each other by Newton's law; positions advance by
//! the Stormer-Verlet two-step formula, which keeps the previous position of
//! each body in place of a velocity. The crate holds the vector algebra, the
//! two formulas, the store of bodies, the order in which a step gathers the
//! pulls and moves the bodies, and the driver that counts the steps and the
//! simulated time.
//!
//! All of it is generic over the number type. The code assumes nothing of
//! the type's operations; each contract says what is computed in every
//! arithmetic that the type obeys.
use vstd::prelude::*;

pub mod scalar;
pub mod vector;
pub mod bodies;
pub mod schedule;
pub mod simulation;
pub mod run;
pub mod physics;
pub mod symmetry;

verus! {

/// Seconds of simulated time covered by one step.
pub const TIMESTEP: u64 = 900;

} // verus!
