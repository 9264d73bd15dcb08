use n_body::geometry::{fixed_units, Vec2, SCALE};
use n_body::particle::{Particle, ParticleBundle};
use n_body::simulation::{run_tick, sim_not_paused, should_clear_particles, SimSettings, PHYSICS_UPDATE_HZ};

fn running(g: i64) -> SimSettings {
    SimSettings {
        paused: false,
        gravity_constant: g,
        collision_steps: 2,
        enable_collisions: false,
        should_clear_all_particles: false,
    }
}

#[test]
fn default_settings() {
    let s = SimSettings::default();
    assert!(s.paused);
    assert_eq!(s.gravity_constant, 500);
    assert_eq!(s.collision_steps, 2);
    assert!(!s.enable_collisions);
    assert!(!s.should_clear_all_particles);
    assert!(!sim_not_paused(&s));
    assert!(!should_clear_particles(&s));
}

#[test]
fn toggle_pause_flips_only_the_pause_flag() {
    let mut s = SimSettings::default();
    s.toggle_pause();
    assert!(!s.paused);
    assert!(sim_not_paused(&s));
    s.toggle_pause();
    assert_eq!(s, SimSettings::default());
}

#[test]
fn effective_values_are_clamped() {
    let mut s = running(-3);
    assert_eq!(s.effective_gravity(), 0);
    s.gravity_constant = 1 << 40;
    assert_eq!(s.effective_gravity(), 65536);
    s.enable_collisions = true;
    s.collision_steps = 0;
    assert_eq!(s.effective_substeps(), 1);
    s.enable_collisions = false;
    assert_eq!(s.effective_substeps(), 0);
}

#[test]
fn clear_request_is_served_within_the_tick() {
    let mut ps: Vec<Particle> = Vec::new();
    ParticleBundle::new().spawn(&mut ps);
    ParticleBundle::new().position(Vec2::from_units(3, 0)).spawn(&mut ps);
    let mut s = running(500);
    s.paused = true;
    s.should_clear_all_particles = true;
    run_tick(&mut ps, &mut s, PHYSICS_UPDATE_HZ);
    assert_eq!(ps.len(), 0);
    assert!(!s.should_clear_all_particles);
    assert!(s.paused);
}

#[test]
fn paused_tick_changes_nothing() {
    let mut ps: Vec<Particle> = Vec::new();
    ParticleBundle::new().position(Vec2::from_units(-50, 0)).mass(1000).spawn(&mut ps);
    ParticleBundle::new().position(Vec2::from_units(50, 0)).mass(1000).spawn(&mut ps);
    let before = ps.clone();
    let mut s = running(500);
    s.paused = true;
    run_tick(&mut ps, &mut s, PHYSICS_UPDATE_HZ);
    assert_eq!(ps, before);
}

#[test]
fn lone_stationary_body_stays_through_many_ticks() {
    let mut ps: Vec<Particle> = Vec::new();
    ParticleBundle::new().position(Vec2::from_units(12, -7)).mass(900).spawn(&mut ps);
    let mut s = running(500);
    s.enable_collisions = true;
    for _ in 0..5000 {
        run_tick(&mut ps, &mut s, PHYSICS_UPDATE_HZ);
    }
    assert_eq!(ps[0].position, Vec2::from_units(12, -7));
    assert_eq!(ps[0].old_position.0, Vec2::from_units(12, -7));
    assert_eq!(ps[0].acceleration.0, Vec2::zero());
}

#[test]
fn one_tick_runs_gravity_then_integration() {
    let mut ps: Vec<Particle> = Vec::new();
    ParticleBundle::new().position(Vec2::from_units(-50, 0)).mass(1000).spawn(&mut ps);
    ParticleBundle::new().position(Vec2::from_units(50, 0)).mass(1000).spawn(&mut ps);
    let mut s = running(500);
    run_tick(&mut ps, &mut s, PHYSICS_UPDATE_HZ);
    // 50 units/s² for 1/120 s squared: 50 · 65536 / 14400 = 227 steps, rounded down
    assert_eq!(ps[0].position, Vec2::new(-50 * SCALE + 227, 0));
    assert_eq!(ps[1].position, Vec2::new(50 * SCALE - 227, 0));
    assert_eq!(ps[0].previous_acceleration.0, Vec2::new(50 * SCALE, 0));
    assert_eq!(ps[0].acceleration.0, Vec2::zero());
}

fn to_units(v: i64) -> f64 {
    v as f64 / SCALE as f64
}

/// Kinetic plus potential energy, with the potential of the force law softened
/// inside the sum of the radii.
fn energy(ps: &[Particle], g: f64, hz: f64) -> f64 {
    let mut e = 0.0;
    for p in ps {
        let vx = to_units(p.position.x - p.old_position.0.x) * hz;
        let vy = to_units(p.position.y - p.old_position.0.y) * hz;
        e += 0.5 * p.mass.0 as f64 * (vx * vx + vy * vy);
    }
    let (a, b) = (&ps[0], &ps[1]);
    let dx = to_units(b.position.x - a.position.x);
    let dy = to_units(b.position.y - a.position.y);
    let d = (dx * dx + dy * dy).sqrt();
    let r = to_units(a.radius.0 + b.radius.0);
    let mm = g * a.mass.0 as f64 * b.mass.0 as f64;
    if d >= r {
        e - mm / d
    } else {
        e - mm * (3.0 * r * r - d * d) / (2.0 * r * r * r)
    }
}

#[test]
fn two_body_orbit_stays_bound_and_keeps_its_energy() {
    // velocities of one unit per second, given as one tick's displacement
    let step = SCALE / PHYSICS_UPDATE_HZ as i64;
    let mut ps: Vec<Particle> = Vec::new();
    ParticleBundle::new()
        .position(Vec2::from_units(-50, 0))
        .velocity(Vec2::new(0, -step))
        .mass(1000)
        .radius(fixed_units(40))
        .spawn(&mut ps);
    ParticleBundle::new()
        .position(Vec2::from_units(50, 0))
        .velocity(Vec2::new(0, step))
        .mass(1000)
        .radius(fixed_units(40))
        .spawn(&mut ps);
    let mut s = running(500);
    let e0 = energy(&ps, 500.0, 120.0);
    for _ in 0..1000 {
        run_tick(&mut ps, &mut s, PHYSICS_UPDATE_HZ);
        let e = energy(&ps, 500.0, 120.0);
        assert!((e - e0).abs() <= 0.01 * e0.abs(), "energy drifted from {} to {}", e0, e);
        for p in &ps {
            assert!(to_units(p.position.x).abs() <= 200.0);
            assert!(to_units(p.position.y).abs() <= 200.0);
        }
    }
}

#[test]
fn clock_hands_out_whole_ticks_and_keeps_the_rest() {
    let mut c = n_body::simulation::SimulationClock::from_hz(PHYSICS_UPDATE_HZ);
    assert_eq!(c.period_ns, 8_333_333);
    assert_eq!(c.advance(5_000_000), 0);
    assert_eq!(c.accumulated_ns, 5_000_000);
    assert_eq!(c.advance(20_000_000), 3);
    assert_eq!(c.accumulated_ns, 1);
    let total = u64::MAX as u128 - 9;
    assert_eq!(c.advance(u64::MAX - 10) as u128, total / 8_333_333);
    assert_eq!(c.accumulated_ns as u128, total % 8_333_333);
}
