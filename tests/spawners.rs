use n_body::geometry::{fixed_units, Vec2, SCALE};
use n_body::spawners::{HoseAction, ParticleHose, NANOS_PER_SECOND};

#[test]
fn hose_defaults() {
    let h = ParticleHose::new();
    assert_eq!(h.period_ns, NANOS_PER_SECOND);
    assert_eq!(h.amount, 100);
    assert_eq!(h.start_amount, 100);
    assert_eq!(h.direction, Vec2::new(1, 0));
}

#[test]
fn hose_waits_for_its_timer() {
    let mut h = ParticleHose::new().per_second(4);
    assert_eq!(h.period_ns, 250_000_000);
    assert!(matches!(h.tick(100_000_000), HoseAction::Wait));
    assert!(matches!(h.tick(100_000_000), HoseAction::Wait));
    assert!(matches!(h.tick(100_000_000), HoseAction::Spawn(_)));
    assert_eq!(h.elapsed_ns, 50_000_000);
    assert_eq!(h.amount, 99);
}

#[test]
fn hose_runs_out_and_asks_to_be_removed() {
    let mut h = ParticleHose::new().amount(2).per_second(1);
    assert!(matches!(h.tick(NANOS_PER_SECOND), HoseAction::Spawn(_)));
    assert!(matches!(h.tick(NANOS_PER_SECOND), HoseAction::Spawn(_)));
    assert_eq!(h.amount, 0);
    assert_eq!(h.start_amount, 2);
    assert!(matches!(h.tick(NANOS_PER_SECOND), HoseAction::Despawn));
}

#[test]
fn zero_rate_never_fires() {
    let mut h = ParticleHose::new().per_second(0);
    for _ in 0..100 {
        assert!(matches!(h.tick(NANOS_PER_SECOND), HoseAction::Wait));
    }
}

#[test]
fn released_body_moves_along_the_direction() {
    let mut h = ParticleHose::new()
        .position(Vec2::from_units(10, 20))
        .direction(Vec2::new(3, 4))
        .velocity(fixed_units(5))
        .radius(fixed_units(2))
        .mass(7)
        .per_second(1);
    match h.tick(NANOS_PER_SECOND) {
        HoseAction::Spawn(b) => {
            assert_eq!(b.position, Vec2::from_units(10, 20));
            assert_eq!(b.old_position.0, Vec2::from_units(7, 16));
            assert_eq!(b.radius, 2 * SCALE);
            assert_eq!(b.mass, 7);
        }
        _ => panic!("the hose should have fired"),
    }
}

#[test]
fn zero_direction_releases_bodies_at_rest() {
    let b = ParticleHose::new().direction(Vec2::zero()).bundle();
    assert_eq!(b.old_position.0, b.position);
}

#[test]
fn spawned_hose_joins_the_list() {
    let mut hoses: Vec<ParticleHose> = Vec::new();
    ParticleHose::new().amount(3).spawn(&mut hoses);
    assert_eq!(hoses.len(), 1);
    assert_eq!(hoses[0].amount, 3);
}
