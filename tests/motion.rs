use n_body::geometry::{Vec2, SCALE};
use n_body::motion::{update_particle_positions, verlet_integrate};
use n_body::particle::{Acceleration, Particle, ParticleBundle};

#[test]
fn verlet_keeps_a_body_at_rest() {
    let p = Vec2::from_units(3, -4);
    assert_eq!(verlet_integrate(120, p, p, Vec2::zero()), p);
}

#[test]
fn verlet_carries_velocity() {
    let p = Vec2::new(1000, 2000);
    let old = Vec2::new(900, 2100);
    assert_eq!(verlet_integrate(120, p, old, Vec2::zero()), Vec2::new(1100, 1900));
}

#[test]
fn verlet_adds_acceleration_times_dt_squared() {
    // 14400 units/s² over 1/120 s gives one unit of displacement.
    let a = Vec2::new(14_400 * SCALE, -14_400 * SCALE);
    let r = verlet_integrate(120, Vec2::zero(), Vec2::zero(), a);
    assert_eq!(r, Vec2::new(SCALE, -SCALE));
}

#[test]
fn verlet_rounds_the_acceleration_term_toward_zero() {
    let r = verlet_integrate(120, Vec2::zero(), Vec2::zero(), Vec2::new(14_399, -14_399));
    assert_eq!(r, Vec2::zero());
    let r = verlet_integrate(120, Vec2::zero(), Vec2::zero(), Vec2::new(28_800, -28_800));
    assert_eq!(r, Vec2::new(2, -2));
}

#[test]
fn verlet_clamps_at_the_world_edge() {
    let edge = 1i64 << 40;
    let r = verlet_integrate(1, Vec2::new(edge, -edge), Vec2::new(edge - 10, -edge + 10), Vec2::zero());
    assert_eq!(r, Vec2::new(edge, -edge));
}

#[test]
fn stationary_body_stays_for_many_ticks() {
    let mut particles: Vec<Particle> = Vec::new();
    ParticleBundle::new().position(Vec2::from_units(7, 9)).spawn(&mut particles);
    for _ in 0..1000 {
        update_particle_positions(&mut particles, 120);
    }
    assert_eq!(particles[0].position, Vec2::from_units(7, 9));
    assert_eq!(particles[0].old_position.0, Vec2::from_units(7, 9));
}

#[test]
fn integration_hands_acceleration_over() {
    let mut particles: Vec<Particle> = Vec::new();
    ParticleBundle::new().spawn(&mut particles);
    particles[0].acceleration = Acceleration(Vec2::new(14_400, 0));
    update_particle_positions(&mut particles, 120);
    assert_eq!(particles[0].position, Vec2::new(1, 0));
    assert_eq!(particles[0].old_position.0, Vec2::zero());
    assert_eq!(particles[0].acceleration.0, Vec2::zero());
    assert_eq!(particles[0].previous_acceleration.0, Vec2::new(14_400, 0));
}
