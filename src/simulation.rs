//! Simulation settings and the fixed-rate tick that drives the solvers.
use vstd::prelude::*;

use crate::collisions::{calculate_collisions, collision_step, relax};
use crate::geometry::{clamp, Vec2};
use crate::gravity::{calc_grav_accel, gravity_pass, gravity_step, reset_accelerations};
use crate::motion::{
    advance, advance_n, integrate_all, is_stationary, lemma_stationary_stays_stationary,
    update_particle_positions,
};
use crate::pairs::{fold_pairs, fold_row, PairStep};
use crate::particle::{all_wf, despawn_particles, Particle};

verus! {

/// Largest gravity constant the solver applies.
pub const GRAVITY_LIMIT: i64 = 65536;

/// The rate of the fixed physics tick, in ticks per second.
pub const PHYSICS_UPDATE_HZ: u32 = 120;

/// Process-wide simulation settings, handed to each solver.
#[derive(Clone, Copy, Debug, PartialEq, Eq, Structural)]
pub struct SimSettings {
    pub paused: bool,
    pub gravity_constant: i64,
    pub collision_steps: u32,
    pub enable_collisions: bool,
    pub should_clear_all_particles: bool,
}

impl SimSettings {
    /// The gravity constant in force: negative values count as zero and large
    /// ones as `GRAVITY_LIMIT`.
    pub open spec fn spec_gravity(self) -> int {
        clamp(self.gravity_constant as int, 0, GRAVITY_LIMIT as int)
    }

    /// The number of relaxation passes in force: none with collisions off, and at
    /// least one with them on.
    pub open spec fn spec_substeps(self) -> int {
        if !self.enable_collisions {
            0
        } else if self.collision_steps == 0 {
            1
        } else {
            self.collision_steps as int
        }
    }

    /// The gravity constant the solver applies.
    pub fn effective_gravity(&self) -> (g: u64)
        ensures
            g == self.spec_gravity(),
            g <= GRAVITY_LIMIT,
    {
        if self.gravity_constant < 0 {
            0
        } else if self.gravity_constant > GRAVITY_LIMIT {
            GRAVITY_LIMIT as u64
        } else {
            self.gravity_constant as u64
        }
    }

    /// The number of relaxation passes the collision solver runs.
    pub fn effective_substeps(&self) -> (n: u32)
        ensures
            n == self.spec_substeps(),
    {
        if !self.enable_collisions {
            0
        } else if self.collision_steps == 0 {
            1
        } else {
            self.collision_steps
        }
    }

    /// Pauses a running simulation or resumes a paused one.
    pub fn toggle_pause(&mut self)
        ensures
            *final(self) == (SimSettings { paused: !old(self).paused, ..*old(self) }),
    {
        self.paused = !self.paused;
    }
}

impl Default for SimSettings {
    /// Paused, gravity constant 500, two relaxation passes, collisions off, no
    /// clear pending.
    fn default() -> (s: SimSettings)
        ensures
            s == (SimSettings {
                paused: true,
                gravity_constant: 500,
                collision_steps: 2,
                enable_collisions: false,
                should_clear_all_particles: false,
            }),
    {
        SimSettings {
            paused: true,
            gravity_constant: 500,
            collision_steps: 2,
            enable_collisions: false,
            should_clear_all_particles: false,
        }
    }
}

/// Whether the physics stages run.
pub fn sim_not_paused(settings: &SimSettings) -> (r: bool)
    ensures
        r == !settings.paused,
{
    !settings.paused
}

/// Whether a clear of every body is pending.
pub fn should_clear_particles(settings: &SimSettings) -> (r: bool)
    ensures
        r == settings.should_clear_all_particles,
{
    settings.should_clear_all_particles
}

/// Fixed-rate tick driver: it accumulates elapsed time and hands out whole ticks,
/// keeping the remainder for later, so the physics rate does not follow the
/// display rate.
#[derive(Clone, Copy, Debug, PartialEq, Eq, Structural)]
pub struct SimulationClock {
    /// Length of one tick, in nanoseconds (at least one).
    pub period_ns: u64,
    /// Elapsed time not yet handed out as ticks.
    pub accumulated_ns: u64,
}

impl SimulationClock {
    pub open spec fn wf(self) -> bool {
        self.period_ns >= 1 && self.accumulated_ns < self.period_ns
    }

    /// A clock running at `hz` ticks per second, with nothing accumulated.
    pub fn from_hz(hz: u32) -> (c: SimulationClock)
        requires
            1 <= hz <= 1_000_000_000,
        ensures
            c.wf(),
            c.period_ns == 1_000_000_000u64 / (hz as u64),
            c.accumulated_ns == 0,
    {
        let period_ns = 1_000_000_000u64 / hz as u64;
        assert(period_ns >= 1) by (nonlinear_arith)
            requires
                period_ns == 1_000_000_000u64 / (hz as u64),
                1 <= hz <= 1_000_000_000,
        ;
        SimulationClock { period_ns, accumulated_ns: 0 }
    }

    /// Adds `elapsed_ns` of real time and returns how many whole ticks are due.
    pub fn advance(&mut self, elapsed_ns: u64) -> (ticks: u64)
        requires
            old(self).wf(),
        ensures
            final(self).wf(),
            final(self).period_ns == old(self).period_ns,
            ticks == (old(self).accumulated_ns + elapsed_ns) / (old(self).period_ns as int),
            final(self).accumulated_ns == (old(self).accumulated_ns + elapsed_ns) % (
            old(self).period_ns as int),
    {
        let total: u128 = self.accumulated_ns as u128 + elapsed_ns as u128;
        let period = self.period_ns as u128;
        let ticks = total / period;
        assert(ticks * period <= total) by (nonlinear_arith)
            requires
                ticks == total / period,
                period >= 1,
        ;
        if period == 1 {
            assert(ticks == total);
        } else {
            assert(ticks <= 0xffff_ffff_ffff_ffff) by (nonlinear_arith)
                requires
                    ticks * period <= total,
                    total < period + 0x1_0000_0000_0000_0000,
                    period >= 2,
            ;
        }
        self.accumulated_ns = (total % period) as u64;
        ticks as u64
    }
}

/// The physics stages of one tick: gravity, then integration, then relaxation.
pub open spec fn physics_step(ps: Seq<Particle>, s: SimSettings, hz: int) -> Seq<Particle> {
    relax(integrate_all(gravity_pass(ps, s.spec_gravity()), hz), s.spec_substeps() as nat)
}

/// The store after one tick: emptied first if a clear is pending, then advanced
/// by the physics stages unless paused.
pub open spec fn tick_result(ps: Seq<Particle>, s: SimSettings, hz: int) -> Seq<Particle> {
    let kept = if s.should_clear_all_particles {
        Seq::empty()
    } else {
        ps
    };
    if s.paused {
        kept
    } else {
        physics_step(kept, s, hz)
    }
}

/// The settings after one tick: a pending clear has been served.
pub open spec fn settings_after_tick(s: SimSettings) -> SimSettings {
    SimSettings { should_clear_all_particles: false, ..s }
}

/// Runs one fixed tick of the simulation. A pending clear removes every body and
/// is reset within the same tick; then, unless paused, gravity recomputes the
/// accelerations, the integrator advances every body by `1/ticks_per_second`,
/// and overlaps are relaxed.
pub fn run_tick(particles: &mut Vec<Particle>, settings: &mut SimSettings, ticks_per_second: u32)
    requires
        ticks_per_second >= 1,
        all_wf(old(particles)@),
    ensures
        final(particles)@ == tick_result(old(particles)@, *old(settings), ticks_per_second as int),
        *final(settings) == settings_after_tick(*old(settings)),
        !final(settings).should_clear_all_particles,
        all_wf(final(particles)@),
{
    if should_clear_particles(settings) {
        despawn_particles(particles);
        settings.should_clear_all_particles = false;
        assert(particles@ =~= Seq::<Particle>::empty());
    }
    if sim_not_paused(settings) {
        calc_grav_accel(particles, settings);
        update_particle_positions(particles, ticks_per_second);
        calculate_collisions(particles, settings);
    }
}

/// The store after `n` ticks with settings `s` that ask for no clear.
pub open spec fn ticks(ps: Seq<Particle>, s: SimSettings, hz: int, n: nat) -> Seq<Particle>
    decreases n,
{
    if n == 0 {
        ps
    } else {
        tick_result(ticks(ps, s, hz, (n - 1) as nat), s, hz)
    }
}

/// A pairwise fold over a single body leaves it alone.
proof fn lemma_fold_single(ps: Seq<Particle>, step: PairStep)
    requires
        ps.len() == 1,
    ensures
        fold_pairs(ps, step, 1, 1) == ps,
{
    assert(fold_pairs(ps, step, 0, 1) == ps);
    assert(fold_row(ps, step, 0, 1) == ps);
}

/// Relaxation does nothing to a single body.
proof fn lemma_relax_single(ps: Seq<Particle>, k: nat)
    requires
        ps.len() == 1,
    ensures
        relax(ps, k) == ps,
    decreases k,
{
    if k > 0 {
        lemma_relax_single(ps, (k - 1) as nat);
        lemma_fold_single(ps, collision_step());
    }
}

/// A lone body with an empty accumulator simply advances by one integration step
/// in a running tick.
proof fn lemma_lone_body_tick(q: Particle, s: SimSettings, hz: int)
    requires
        q.acceleration.0 == Vec2::spec_zero(),
        !s.should_clear_all_particles,
        !s.paused,
    ensures
        tick_result(seq![q], s, hz) == seq![advance(q, hz)],
{
    let ps = seq![q];
    let start = reset_accelerations(ps);
    assert(start =~= ps);
    lemma_fold_single(ps, gravity_step(s.spec_gravity()));
    assert(gravity_pass(ps, s.spec_gravity()) == ps);
    let moved = integrate_all(ps, hz);
    assert(moved =~= seq![advance(q, hz)]);
    lemma_relax_single(moved, s.spec_substeps() as nat);
}

/// A body at rest with nothing pushing it, alone in the store, stays where it is
/// and at rest through any number of ticks, paused or running.
pub proof fn lemma_stationary_body_stays(p: Particle, s: SimSettings, hz: int, n: nat)
    requires
        p.wf(),
        hz >= 1,
        is_stationary(p),
        !s.should_clear_all_particles,
    ensures
        ticks(seq![p], s, hz, n).len() == 1,
        ticks(seq![p], s, hz, n)[0].position == p.position,
        is_stationary(ticks(seq![p], s, hz, n)[0]),
    decreases n,
{
    lemma_stationary_ticks(p, s, hz, n);
    if !s.paused {
        lemma_stationary_stays_stationary(p, hz, n);
    }
}

proof fn lemma_stationary_ticks(p: Particle, s: SimSettings, hz: int, n: nat)
    requires
        p.acceleration.0 == Vec2::spec_zero(),
        !s.should_clear_all_particles,
    ensures
        s.paused ==> ticks(seq![p], s, hz, n) == seq![p],
        !s.paused ==> ticks(seq![p], s, hz, n) == seq![advance_n(p, hz, n)],
    decreases n,
{
    if n > 0 {
        lemma_stationary_ticks(p, s, hz, (n - 1) as nat);
        if !s.paused {
            let q = advance_n(p, hz, (n - 1) as nat);
            lemma_lone_body_tick(q, s, hz);
        }
    }
}

} // verus!
