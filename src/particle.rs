//! Simulated bodies and the builder that spawns them.
use vstd::prelude::*;

use crate::geometry::{clamp, clamp_coord, clamp_i128, Vec2, COORD_LIMIT, SCALE};

verus! {

/// Largest mass a body may have.
pub const MASS_LIMIT: u32 = 1_048_576;

/// Largest radius a body may have, in fixed-point steps.
pub const RADIUS_LIMIT: i64 = 1_099_511_627_776;

/// The position a body held one tick ago; `position - old_position` is its velocity.
#[derive(Clone, Copy, Debug, PartialEq, Eq, Structural)]
pub struct OldPosition(pub Vec2);

/// Acceleration accumulated by the gravity pass, in fixed-point steps per second squared.
#[derive(Clone, Copy, Debug, PartialEq, Eq, Structural)]
pub struct Acceleration(pub Vec2);

/// The acceleration last consumed by the integrator, kept for display.
#[derive(Clone, Copy, Debug, PartialEq, Eq, Structural)]
pub struct PreviousAcceleration(pub Vec2);

/// Mass of a body, in whole mass units.
#[derive(Clone, Copy, Debug, PartialEq, Eq, Structural)]
pub struct Mass(pub u32);

/// Contact radius of a body, in fixed-point steps.
#[derive(Clone, Copy, Debug, PartialEq, Eq, Structural)]
pub struct Radius(pub i64);

/// One simulated body.
#[derive(Clone, Copy, Debug, PartialEq, Eq, Structural)]
pub struct Particle {
    pub id: u64,
    pub position: Vec2,
    pub old_position: OldPosition,
    pub acceleration: Acceleration,
    pub previous_acceleration: PreviousAcceleration,
    pub mass: Mass,
    pub radius: Radius,
}

impl Particle {
    /// Coordinates inside the world, accelerations bounded, a positive mass and a
    /// non-negative radius, each within its limit.
    pub open spec fn wf(self) -> bool {
        &&& self.position.in_world()
        &&& self.old_position.0.in_world()
        &&& self.acceleration.0.accel_bounded()
        &&& self.previous_acceleration.0.accel_bounded()
        &&& 1 <= self.mass.0 <= MASS_LIMIT
        &&& 0 <= self.radius.0 <= RADIUS_LIMIT
    }
}

/// Every body of the store is well formed.
pub open spec fn all_wf(ps: Seq<Particle>) -> bool {
    forall|i: int| 0 <= i < ps.len() ==> #[trigger] ps[i].wf()
}

/// Builder for a body; `spawn` adds it to a store.
#[derive(Clone, Copy, Debug)]
pub struct ParticleBundle {
    pub id: u64,
    pub position: Vec2,
    pub old_position: OldPosition,
    pub radius: i64,
    pub mass: i64,
}

/// A raw radius made admissible: negative radii become zero.
pub open spec fn admissible_radius(r: int) -> int {
    clamp(r, 0, RADIUS_LIMIT as int)
}

/// A raw mass made admissible: masses below one become one.
pub open spec fn admissible_mass(m: int) -> int {
    clamp(m, 1, MASS_LIMIT as int)
}

impl ParticleBundle {
    /// The body that `spawn` adds.
    pub open spec fn spec_particle(self) -> Particle {
        Particle {
            id: self.id,
            position: self.position,
            old_position: self.old_position,
            acceleration: Acceleration(Vec2 { x: 0, y: 0 }),
            previous_acceleration: PreviousAcceleration(Vec2 { x: 0, y: 0 }),
            mass: Mass(admissible_mass(self.mass as int) as u32),
            radius: Radius(admissible_radius(self.radius as int) as i64),
        }
    }

    pub open spec fn wf(self) -> bool {
        self.position.in_world() && self.old_position.0.in_world()
    }

    /// A body at rest at the origin, of radius one unit and mass one.
    pub fn new() -> (r: ParticleBundle)
        ensures
            r.wf(),
            r.id == 0,
            r.position == Vec2::spec_zero(),
            r.old_position.0 == Vec2::spec_zero(),
            r.radius == SCALE,
            r.mass == 1,
    {
        ParticleBundle {
            id: 0,
            position: Vec2::zero(),
            old_position: OldPosition(Vec2::zero()),
            radius: SCALE,
            mass: 1,
        }
    }

    /// Sets the identity handle of the body.
    pub fn id(self, id: u64) -> (r: ParticleBundle)
        ensures
            r == (ParticleBundle { id, ..self }),
    {
        ParticleBundle { id, ..self }
    }

    /// Sets the contact radius, in fixed-point steps.
    pub fn radius(self, radius: i64) -> (r: ParticleBundle)
        ensures
            r == (ParticleBundle { radius, ..self }),
    {
        ParticleBundle { radius, ..self }
    }

    /// Sets the mass, in whole mass units.
    pub fn mass(self, mass: i64) -> (r: ParticleBundle)
        ensures
            r == (ParticleBundle { mass, ..self }),
    {
        ParticleBundle { mass, ..self }
    }

    /// Places the body at rest at `pos`, each coordinate clamped into the world.
    pub fn position(self, pos: Vec2) -> (r: ParticleBundle)
        ensures
            r.wf(),
            r.id == self.id,
            r.radius == self.radius,
            r.mass == self.mass,
            r.position.x == clamp_coord(pos.x as int),
            r.position.y == clamp_coord(pos.y as int),
            r.old_position.0 == r.position,
    {
        let p = Vec2 {
            x: clamp_i128(pos.x as i128, -COORD_LIMIT, COORD_LIMIT),
            y: clamp_i128(pos.y as i128, -COORD_LIMIT, COORD_LIMIT),
        };
        ParticleBundle { position: p, old_position: OldPosition(p), ..self }
    }

    /// Gives the body the velocity `velo` (steps per tick) by setting its old
    /// position to `position - velo`, clamped into the world. Call after `position`.
    pub fn velocity(self, velo: Vec2) -> (r: ParticleBundle)
        requires
            self.wf(),
        ensures
            r.wf(),
            r.id == self.id,
            r.radius == self.radius,
            r.mass == self.mass,
            r.position == self.position,
            r.old_position.0.x == clamp_coord(self.position.x - velo.x),
            r.old_position.0.y == clamp_coord(self.position.y - velo.y),
    {
        let old = Vec2 {
            x: clamp_i128(self.position.x as i128 - velo.x as i128, -COORD_LIMIT, COORD_LIMIT),
            y: clamp_i128(self.position.y as i128 - velo.y as i128, -COORD_LIMIT, COORD_LIMIT),
        };
        ParticleBundle { old_position: OldPosition(old), ..self }
    }

    /// The body this builder describes, with radius and mass made admissible.
    pub fn build(self) -> (p: Particle)
        requires
            self.wf(),
        ensures
            p == self.spec_particle(),
            p.wf(),
    {
        let radius = clamp_i128(self.radius as i128, 0, RADIUS_LIMIT);
        let mass = clamp_i128(self.mass as i128, 1, MASS_LIMIT as i64);
        Particle {
            id: self.id,
            position: self.position,
            old_position: self.old_position,
            acceleration: Acceleration(Vec2::zero()),
            previous_acceleration: PreviousAcceleration(Vec2::zero()),
            mass: Mass(mass as u32),
            radius: Radius(radius),
        }
    }

    /// Adds the body to the store.
    pub fn spawn(self, particles: &mut Vec<Particle>)
        requires
            self.wf(),
        ensures
            final(particles)@ == old(particles)@.push(self.spec_particle()),
    {
        let p = self.build();
        particles.push(p);
    }
}

/// The number of bodies in the store.
#[derive(Clone, Copy, Debug, PartialEq, Eq, Structural)]
pub struct ParticleCount(pub usize);

/// Counts the bodies of the store.
pub fn count_particles(particles: &Vec<Particle>) -> (c: ParticleCount)
    ensures
        c.0 == particles@.len(),
{
    ParticleCount(particles.len())
}

/// Removes every body from the store.
pub fn despawn_particles(particles: &mut Vec<Particle>)
    ensures
        final(particles)@.len() == 0,
{
    particles.clear();
}

} // verus!
