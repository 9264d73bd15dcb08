//! Störmer–Verlet integration on implicit velocities.
use vstd::prelude::*;

use crate::geometry::{
    clamp_coord, clamp_i128, div_trunc, div_trunc_signed, Vec2, ACCEL_LIMIT, COORD_LIMIT,
};
use crate::particle::{all_wf, Acceleration, OldPosition, Particle, PreviousAcceleration};

verus! {

/// One coordinate after a tick: `pos + (pos - old) + acc·dt²` with `dt = 1/hz`,
/// the acceleration term rounded toward zero and the result clamped into the world.
pub open spec fn verlet_axis(pos: int, old: int, acc: int, hz: int) -> int {
    clamp_coord(pos + (pos - old) + div_trunc(acc, hz * hz))
}

pub open spec fn spec_verlet(hz: int, position: Vec2, old_position: Vec2, acceleration: Vec2) -> Vec2 {
    Vec2 {
        x: verlet_axis(position.x as int, old_position.x as int, acceleration.x as int, hz) as i64,
        y: verlet_axis(position.y as int, old_position.y as int, acceleration.y as int, hz) as i64,
    }
}

/// A body after one integration step: it moves by its velocity and acceleration,
/// remembers its previous position, and hands its acceleration over to
/// `previous_acceleration`, leaving the accumulator at zero.
pub open spec fn advance(p: Particle, hz: int) -> Particle {
    Particle {
        position: spec_verlet(hz, p.position, p.old_position.0, p.acceleration.0),
        old_position: OldPosition(p.position),
        acceleration: Acceleration(Vec2::spec_zero()),
        previous_acceleration: PreviousAcceleration(p.acceleration.0),
        ..p
    }
}

/// A body after `n` integration steps.
pub open spec fn advance_n(p: Particle, hz: int, n: nat) -> Particle
    decreases n,
{
    if n == 0 {
        p
    } else {
        advance(advance_n(p, hz, (n - 1) as nat), hz)
    }
}

/// Every body of the store after one integration step.
pub open spec fn integrate_all(ps: Seq<Particle>, hz: int) -> Seq<Particle> {
    Seq::new(ps.len(), |i: int| advance(ps[i], hz))
}

/// At rest, with nothing pushing it.
pub open spec fn is_stationary(p: Particle) -> bool {
    p.old_position.0 == p.position && p.acceleration.0 == Vec2::spec_zero()
}

fn verlet_coord(hz_sq: u128, pos: i64, old: i64, acc: i64) -> (r: i64)
    requires
        hz_sq > 0,
        -COORD_LIMIT <= pos <= COORD_LIMIT,
        -COORD_LIMIT <= old <= COORD_LIMIT,
        -ACCEL_LIMIT <= acc <= ACCEL_LIMIT,
    ensures
        r == clamp_coord(pos + (pos - old) + div_trunc(acc as int, hz_sq as int)),
{
    let negative = acc < 0;
    let magnitude: u128 = if negative { (-(acc as i128)) as u128 } else { acc as u128 };
    let step = div_trunc_signed(negative, magnitude, hz_sq);
    clamp_i128(pos as i128 + (pos as i128 - old as i128) + step, -COORD_LIMIT, COORD_LIMIT)
}

/// Returns the next position of a body from the tick rate (`dt = 1/ticks_per_second`),
/// its position, its previous position and its acceleration.
pub fn verlet_integrate(
    ticks_per_second: u32,
    position: Vec2,
    old_position: Vec2,
    acceleration: Vec2,
) -> (r: Vec2)
    requires
        ticks_per_second >= 1,
        position.in_world(),
        old_position.in_world(),
        acceleration.accel_bounded(),
    ensures
        r == spec_verlet(ticks_per_second as int, position, old_position, acceleration),
        r.in_world(),
{
    assert(1 <= ticks_per_second as int * ticks_per_second as int <= 0xffff_ffff * 0xffff_ffff)
        by (nonlinear_arith)
        requires
            1 <= ticks_per_second <= 0xffff_ffffu32,
    ;
    let hz_sq = ticks_per_second as u128 * ticks_per_second as u128;
    Vec2 {
        x: verlet_coord(hz_sq, position.x, old_position.x, acceleration.x),
        y: verlet_coord(hz_sq, position.y, old_position.y, acceleration.y),
    }
}

/// Advances every body of the store by one tick.
pub fn update_particle_positions(particles: &mut Vec<Particle>, ticks_per_second: u32)
    requires
        ticks_per_second >= 1,
        all_wf(old(particles)@),
    ensures
        final(particles)@.len() == old(particles)@.len(),
        forall|i: int|
            0 <= i < final(particles)@.len() ==> #[trigger] final(particles)@[i] == advance(
                old(particles)@[i],
                ticks_per_second as int,
            ),
        final(particles)@ == integrate_all(old(particles)@, ticks_per_second as int),
        all_wf(final(particles)@),
{
    let n = particles.len();
    for i in 0..n
        invariant
            n == particles@.len(),
            ticks_per_second >= 1,
            old(particles)@.len() == n,
            all_wf(old(particles)@),
            all_wf(particles@),
            forall|k: int| i <= k < n ==> particles@[k] == old(particles)@[k],
            forall|k: int|
                0 <= k < i ==> #[trigger] particles@[k] == advance(
                    old(particles)@[k],
                    ticks_per_second as int,
                ),
    {
        let p = particles[i];
        assert(particles@[i as int].wf());
        let next = verlet_integrate(ticks_per_second, p.position, p.old_position.0, p.acceleration.0);
        let q = Particle {
            position: next,
            old_position: OldPosition(p.position),
            acceleration: Acceleration(Vec2::zero()),
            previous_acceleration: PreviousAcceleration(p.acceleration.0),
            ..p
        };
        let ghost prev = particles@;
        particles.set(i, q);
        assert forall|k: int| 0 <= k < n implies #[trigger] particles@[k].wf() by {
            if k != i {
                assert(prev[k].wf());
            }
        }
    }
    assert(particles@ =~= integrate_all(old(particles)@, ticks_per_second as int));
}

/// A body at rest with nothing pushing it stays where it is, at rest, for any number of ticks.
pub proof fn lemma_stationary_stays_stationary(p: Particle, hz: int, n: nat)
    requires
        p.wf(),
        hz >= 1,
        is_stationary(p),
    ensures
        advance_n(p, hz, n).position == p.position,
        is_stationary(advance_n(p, hz, n)),
    decreases n,
{
    if n > 0 {
        lemma_stationary_stays_stationary(p, hz, (n - 1) as nat);
        let q = advance_n(p, hz, (n - 1) as nat);
        assert(hz * hz > 0) by (nonlinear_arith)
            requires
                hz >= 1,
        ;
        assert(div_trunc(0, hz * hz) == 0);
    }
}

} // verus!
