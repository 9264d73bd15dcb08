use n_body::geometry::{fixed_units, Vec2, SCALE};
use n_body::gravity::calc_grav_accel;
use n_body::particle::{Acceleration, Particle, ParticleBundle};
use n_body::simulation::SimSettings;

fn settings(g: i64) -> SimSettings {
    SimSettings {
        paused: false,
        gravity_constant: g,
        collision_steps: 1,
        enable_collisions: false,
        should_clear_all_particles: false,
    }
}

fn body(x: i32, y: i32, mass: i64) -> ParticleBundle {
    ParticleBundle::new().position(Vec2::from_units(x, y)).mass(mass)
}

#[test]
fn pair_pulls_are_opposite_and_exact() {
    let mut ps: Vec<Particle> = Vec::new();
    body(-50, 0, 1000).spawn(&mut ps);
    body(50, 0, 1000).spawn(&mut ps);
    calc_grav_accel(&mut ps, &settings(500));
    // 500 · 1000 / 100² = 50 units/s².
    assert_eq!(ps[0].acceleration.0, Vec2::new(50 * SCALE, 0));
    assert_eq!(ps[1].acceleration.0, Vec2::new(-50 * SCALE, 0));
}

#[test]
fn pull_is_scaled_by_the_other_mass() {
    let mut ps: Vec<Particle> = Vec::new();
    body(0, -50, 1000).spawn(&mut ps);
    body(0, 50, 3000).spawn(&mut ps);
    calc_grav_accel(&mut ps, &settings(500));
    assert_eq!(ps[0].acceleration.0, Vec2::new(0, 150 * SCALE));
    assert_eq!(ps[1].acceleration.0, Vec2::new(0, -50 * SCALE));
}

#[test]
fn accumulators_are_reset_before_the_pass() {
    let mut ps: Vec<Particle> = Vec::new();
    body(0, 0, 10).spawn(&mut ps);
    ps[0].acceleration = Acceleration(Vec2::new(123, 456));
    calc_grav_accel(&mut ps, &settings(500));
    assert_eq!(ps[0].acceleration.0, Vec2::zero());
}

#[test]
fn coincident_bodies_exert_nothing() {
    let mut ps: Vec<Particle> = Vec::new();
    body(5, 5, 100).spawn(&mut ps);
    body(5, 5, 100).spawn(&mut ps);
    calc_grav_accel(&mut ps, &settings(500));
    assert_eq!(ps[0].acceleration.0, Vec2::zero());
    assert_eq!(ps[1].acceleration.0, Vec2::zero());
}

#[test]
fn overlapping_bodies_are_softened_by_their_radii() {
    let mut ps: Vec<Particle> = Vec::new();
    body(0, 0, 1000).radius(fixed_units(5)).spawn(&mut ps);
    body(2, 0, 1000).radius(fixed_units(5)).spawn(&mut ps);
    calc_grav_accel(&mut ps, &settings(500));
    // distance 2 is softened to 10: 500 · 1000 · 2 / 10³ = 1000 units/s².
    assert_eq!(ps[0].acceleration.0, Vec2::new(1000 * SCALE, 0));
    assert_eq!(ps[1].acceleration.0, Vec2::new(-1000 * SCALE, 0));
}

#[test]
fn negative_gravity_constant_counts_as_zero() {
    let mut ps: Vec<Particle> = Vec::new();
    body(-50, 0, 1000).spawn(&mut ps);
    body(50, 0, 1000).spawn(&mut ps);
    calc_grav_accel(&mut ps, &settings(-500));
    assert_eq!(ps[0].acceleration.0, Vec2::zero());
    assert_eq!(ps[1].acceleration.0, Vec2::zero());
}

#[test]
fn three_bodies_sum_their_pulls() {
    let mut ps: Vec<Particle> = Vec::new();
    body(-50, 0, 1000).spawn(&mut ps);
    body(0, 0, 1000).spawn(&mut ps);
    body(50, 0, 1000).spawn(&mut ps);
    calc_grav_accel(&mut ps, &settings(500));
    // the middle body is pulled equally both ways
    assert_eq!(ps[1].acceleration.0, Vec2::zero());
    // 500·1000/50² + 500·1000/100² = 200 + 50
    assert_eq!(ps[0].acceleration.0, Vec2::new(250 * SCALE, 0));
    assert_eq!(ps[2].acceleration.0, Vec2::new(-250 * SCALE, 0));
}

#[test]
fn softening_bounds_the_pull_of_a_diagonal_neighbour() {
    // radii 1 and 0 steps, offset (1, 1) steps, constant 1, masses 1
    let mut ps: Vec<Particle> = Vec::new();
    ParticleBundle::new().radius(1).mass(1).spawn(&mut ps);
    ParticleBundle::new().position(Vec2::new(1, 1)).radius(0).mass(1).spawn(&mut ps);
    calc_grav_accel(&mut ps, &settings(1));
    let bound = (SCALE as i128).pow(3);
    for p in &ps {
        let a = p.acceleration.0;
        let sq = (a.x as i128) * (a.x as i128) + (a.y as i128) * (a.y as i128);
        assert!(sq <= bound * bound);
    }
    // the distance rounds up to 2 steps: SCALE³ · 1 / 8 on each axis
    assert_eq!(ps[0].acceleration.0, Vec2::new(1 << 45, 1 << 45));
    assert_eq!(ps[1].acceleration.0, Vec2::new(-(1 << 45), -(1 << 45)));
}
