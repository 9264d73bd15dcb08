use n_body::geometry::{fixed_units, Vec2, SCALE};
use n_body::particle::{count_particles, despawn_particles, Particle, ParticleBundle};

fn build_test_particle() -> ParticleBundle {
    ParticleBundle::new()
        .position(Vec2::from_units(100, 200))
        .velocity(Vec2::from_units(5, 10))
        .radius(fixed_units(15))
        .mass(500)
}

fn check_builder() {
    let pos = Vec2::from_units(100, 200);
    let velo = Vec2::from_units(5, 10);

    let bundle = build_test_particle();

    assert_eq!(bundle.position, pos);
    // old position should be position - velocity
    let expected_old = Vec2::new(pos.x - velo.x, pos.y - velo.y);
    assert_eq!(bundle.old_position.0, expected_old);
    assert_eq!(bundle.radius, 15 * SCALE);
    assert_eq!(bundle.mass, 500);
}

#[test]
fn particle_test_particle_bundle_builder() {
    check_builder();
    let p = build_test_particle().build();
    assert_eq!(p.mass.0, 500);
    assert_eq!(p.radius.0, 15 * SCALE);
}

#[test]
fn mod_test_particle_bundle_builder() {
    check_builder();
}

#[test]
fn particle_test_normal_particle_bundle_spawning() {
    let mut particles: Vec<Particle> = Vec::new();
    build_test_particle().spawn(&mut particles);
    assert_eq!(count_particles(&particles).0, 1);
}

#[test]
fn mod_test_normal_particle_bundle_spawning() {
    let mut particles: Vec<Particle> = Vec::new();
    build_test_particle().spawn(&mut particles);
    assert_eq!(particles.len(), 1);
}

#[test]
fn particle_test_negitive_radius_particle_bundle_spawning() {
    let mut particles: Vec<Particle> = Vec::new();
    build_test_particle().radius(fixed_units(-10)).spawn(&mut particles);
    assert_eq!(count_particles(&particles).0, 1);
}

#[test]
fn mod_test_negitive_radius_particle_bundle_spawning() {
    let mut particles: Vec<Particle> = Vec::new();
    build_test_particle().radius(fixed_units(-10)).spawn(&mut particles);
    assert_eq!(particles.len(), 1);
}

#[test]
fn particle_test_negitive_mass_particle_bundle_spawning() {
    let mut particles: Vec<Particle> = Vec::new();
    build_test_particle().mass(-10).spawn(&mut particles);
    assert_eq!(count_particles(&particles).0, 1);
}

#[test]
fn mod_test_negitive_mass_particle_bundle_spawning() {
    let mut particles: Vec<Particle> = Vec::new();
    build_test_particle().mass(-10).spawn(&mut particles);
    assert_eq!(particles.len(), 1);
}

#[test]
fn test_particle_despawn() {
    let mut particles: Vec<Particle> = Vec::new();
    build_test_particle().spawn(&mut particles);
    despawn_particles(&mut particles);
    assert_eq!(particles.len(), 0);
}

#[test]
fn spawn_makes_invalid_radius_and_mass_admissible() {
    let mut particles: Vec<Particle> = Vec::new();
    build_test_particle().radius(-10).mass(-10).spawn(&mut particles);
    assert_eq!(particles[0].radius.0, 0);
    assert_eq!(particles[0].mass.0, 1);
    build_test_particle().mass(5_000_000).spawn(&mut particles);
    assert_eq!(particles[1].mass.0, 1_048_576);
}

#[test]
fn spawned_particle_starts_with_empty_accumulators() {
    let p = build_test_particle().id(7).build();
    assert_eq!(p.id, 7);
    assert_eq!(p.acceleration.0, Vec2::zero());
    assert_eq!(p.previous_acceleration.0, Vec2::zero());
    assert_eq!(p.position, Vec2::from_units(100, 200));
    assert_eq!(p.old_position.0, Vec2::from_units(95, 190));
}

#[test]
fn builder_clamps_positions_into_the_world() {
    let b = ParticleBundle::new().position(Vec2::new(i64::MAX, i64::MIN));
    assert_eq!(b.position, Vec2::new(1 << 40, -(1 << 40)));
    assert_eq!(b.old_position.0, b.position);
}
