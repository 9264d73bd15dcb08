//! A two-dimensional gravitational particle simulator in fixed-point arithmetic:
//! pairwise gravity softened by contact radius, Störmer–Verlet integration on
//! implicit velocities, overlap relaxation, a fixed-rate tick with pause and
//! clear, and a point quadtree rebuilt from each snapshot.
//!
//! Lengths are integers in steps of 1/65536 of a world unit (`geometry::SCALE`),
//! accelerations in steps per second squared, masses and the gravity constant in
//! whole units. The time step is one over the tick rate. Divisions round toward
//! zero, except collision corrections, which round away from zero so that an
//! overlapping pair always moves apart; the distance that softens gravity takes
//! its square root rounded up, so it never falls below the true distance. Results
//! that would leave the representable range are clamped, so no state ever becomes
//! undefined. Collision correction splits each overlap equally
//! between the two bodies, whatever their masses.
use vstd::prelude::*;

pub mod collisions;
pub mod geometry;
pub mod gravity;
pub mod motion;
pub mod pairs;
pub mod particle;
pub mod quadtree;
pub mod simulation;
pub mod spawners;

verus! {

} // verus!
