use n_body::collisions::calculate_collisions;
use n_body::geometry::{fixed_units, Vec2, SCALE};
use n_body::particle::{Particle, ParticleBundle};
use n_body::simulation::SimSettings;

fn settings(enabled: bool, steps: u32) -> SimSettings {
    SimSettings {
        paused: false,
        gravity_constant: 0,
        collision_steps: steps,
        enable_collisions: enabled,
        should_clear_all_particles: false,
    }
}

fn body(x: i32, y: i32, radius: i32) -> ParticleBundle {
    ParticleBundle::new().position(Vec2::from_units(x, y)).radius(fixed_units(radius))
}

fn separation_sq(a: &Particle, b: &Particle) -> i128 {
    let dx = (a.position.x - b.position.x) as i128;
    let dy = (a.position.y - b.position.y) as i128;
    dx * dx + dy * dy
}

#[test]
fn overlap_is_split_equally() {
    let mut ps: Vec<Particle> = Vec::new();
    body(0, 0, 10).spawn(&mut ps);
    body(10, 0, 10).spawn(&mut ps);
    calculate_collisions(&mut ps, &settings(true, 1));
    assert_eq!(ps[0].position, Vec2::from_units(-5, 0));
    assert_eq!(ps[1].position, Vec2::from_units(15, 0));
    // old positions are kept: the push shows up as velocity
    assert_eq!(ps[0].old_position.0, Vec2::from_units(0, 0));
}

#[test]
fn coincident_bodies_are_split_along_x() {
    let mut ps: Vec<Particle> = Vec::new();
    body(0, 0, 1).spawn(&mut ps);
    body(0, 0, 1).spawn(&mut ps);
    calculate_collisions(&mut ps, &settings(true, 1));
    assert_eq!(ps[0].position, Vec2::new(SCALE, 0));
    assert_eq!(ps[1].position, Vec2::new(-SCALE, 0));
}

#[test]
fn disabled_collisions_change_nothing() {
    let mut ps: Vec<Particle> = Vec::new();
    body(0, 0, 10).spawn(&mut ps);
    body(10, 0, 10).spawn(&mut ps);
    calculate_collisions(&mut ps, &settings(false, 4));
    assert_eq!(ps[0].position, Vec2::from_units(0, 0));
    assert_eq!(ps[1].position, Vec2::from_units(10, 0));
}

#[test]
fn zero_substeps_with_collisions_on_runs_one_pass() {
    let mut ps: Vec<Particle> = Vec::new();
    body(0, 0, 10).spawn(&mut ps);
    body(10, 0, 10).spawn(&mut ps);
    calculate_collisions(&mut ps, &settings(true, 0));
    assert_eq!(ps[0].position, Vec2::from_units(-5, 0));
    assert_eq!(ps[1].position, Vec2::from_units(15, 0));
}

#[test]
fn separated_bodies_are_left_alone() {
    let mut ps: Vec<Particle> = Vec::new();
    body(0, 0, 5).spawn(&mut ps);
    body(10, 0, 5).spawn(&mut ps);
    calculate_collisions(&mut ps, &settings(true, 3));
    assert_eq!(ps[0].position, Vec2::from_units(0, 0));
    assert_eq!(ps[1].position, Vec2::from_units(10, 0));
}

#[test]
fn relaxation_never_brings_a_pair_closer() {
    let cases = [(0, 0, 3, 4, 10), (0, 0, -1, 0, 2), (5, 5, 5, 6, 3), (0, 0, 7, -2, 6)];
    for (ax, ay, bx, by, r) in cases {
        let mut ps: Vec<Particle> = Vec::new();
        body(ax, ay, r).spawn(&mut ps);
        body(bx, by, r).spawn(&mut ps);
        for _ in 0..5 {
            let before = separation_sq(&ps[0], &ps[1]);
            calculate_collisions(&mut ps, &settings(true, 1));
            assert!(separation_sq(&ps[0], &ps[1]) >= before);
        }
    }
}

#[test]
fn diagonal_overlap_is_pushed_along_the_offset() {
    let mut ps: Vec<Particle> = Vec::new();
    body(0, 0, 5).spawn(&mut ps);
    body(3, 4, 5).spawn(&mut ps);
    calculate_collisions(&mut ps, &settings(true, 1));
    // distance 5, overlap 5: each body moves 2.5 units along (3, 4)/5
    assert_eq!(ps[0].position, Vec2::new(-(3 * SCALE) / 2, -2 * SCALE));
    assert_eq!(ps[1].position, Vec2::new(3 * SCALE + (3 * SCALE) / 2, 6 * SCALE));
}

#[test]
fn coincident_pair_with_one_step_of_radius_is_pushed_apart() {
    let mut ps: Vec<Particle> = Vec::new();
    ParticleBundle::new().radius(1).spawn(&mut ps);
    ParticleBundle::new().radius(0).spawn(&mut ps);
    calculate_collisions(&mut ps, &settings(true, 1));
    assert_eq!(ps[0].position, Vec2::new(1, 0));
    assert_eq!(ps[1].position, Vec2::new(-1, 0));
}

#[test]
fn coincident_pair_reaches_contact_with_an_odd_radius_sum() {
    let mut ps: Vec<Particle> = Vec::new();
    ParticleBundle::new().radius(3).spawn(&mut ps);
    ParticleBundle::new().radius(2).spawn(&mut ps);
    calculate_collisions(&mut ps, &settings(true, 1));
    assert!(separation_sq(&ps[0], &ps[1]) >= 25);
}

#[test]
fn one_step_overlap_still_separates() {
    let mut ps: Vec<Particle> = Vec::new();
    ParticleBundle::new().radius(5).spawn(&mut ps);
    ParticleBundle::new().position(Vec2::new(10, 0)).radius(6).spawn(&mut ps);
    let before = separation_sq(&ps[0], &ps[1]);
    calculate_collisions(&mut ps, &settings(true, 1));
    assert!(separation_sq(&ps[0], &ps[1]) > before);
    assert_eq!(ps[0].position, Vec2::new(-1, 0));
    assert_eq!(ps[1].position, Vec2::new(11, 0));
}
