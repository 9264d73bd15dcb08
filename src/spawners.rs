//! A particle hose: a spawner that releases bodies one at a time on a timer until
//! it runs out.
use vstd::prelude::*;

use crate::geometry::{
    abs, clamp_coord, clamp_i128, div_trunc, floor_sqrt, isqrt, lemma_floor_sqrt_bounds_leg, Vec2,
    COORD_LIMIT, SCALE,
};
use crate::particle::ParticleBundle;

verus! {

/// Nanoseconds in one second.
pub const NANOS_PER_SECOND: u64 = 1_000_000_000;

/// A hose spawns bodies in one direction with a speed. It releases one body each
/// time its repeating timer completes, until `amount` bodies have been released.
#[derive(Clone, Copy, Debug, PartialEq, Eq, Structural)]
pub struct ParticleHose {
    /// Length of the repeating timer, in nanoseconds.
    pub period_ns: u64,
    /// Time accumulated on the timer since it last completed.
    pub elapsed_ns: u64,
    pub position: Vec2,
    pub start_amount: u32,
    pub amount: u32,
    pub radius: i64,
    pub mass: i64,
    /// Speed of released bodies, in fixed-point steps per tick.
    pub velocity: i64,
    /// Only the direction of this vector matters.
    pub direction: Vec2,
}

/// What a hose asks for after its timer has advanced.
#[derive(Clone, Copy, Debug)]
pub enum HoseAction {
    /// The hose has run out and should be removed.
    Despawn,
    /// The timer has not completed yet.
    Wait,
    /// Release this body.
    Spawn(ParticleBundle),
}

/// One component of `direction` scaled to length `speed`: `delta · speed / |direction|`
/// rounded toward zero, with `len` the floor of `|direction|`.
pub open spec fn scaled_axis(delta: int, speed: int, len: int) -> int {
    div_trunc(delta * speed, len)
}

/// The velocity of released bodies: `direction` normalised and scaled by
/// `speed`, or zero when the direction is the zero vector.
pub open spec fn hose_velocity(direction: Vec2, speed: int) -> (int, int) {
    let n = direction.x * direction.x + direction.y * direction.y;
    if n == 0 {
        (0, 0)
    } else {
        let len = floor_sqrt(n);
        (scaled_axis(direction.x as int, speed, len), scaled_axis(direction.y as int, speed, len))
    }
}

/// The timer after `delta` more nanoseconds: whether it completed, and the time
/// left over past its last completion. A zero-length timer completes on every tick.
pub open spec fn timer_step(elapsed: int, period: int, delta: int) -> (bool, int) {
    if period == 0 {
        (true, 0)
    } else {
        let total = elapsed + delta;
        (total >= period, total % period)
    }
}

impl ParticleHose {
    pub open spec fn wf(self) -> bool {
        self.position.in_world() && self.direction.in_world() && -COORD_LIMIT <= self.velocity
            <= COORD_LIMIT
    }

    /// The body the hose releases next.
    pub open spec fn spec_bundle(self) -> ParticleBundle {
        let (vx, vy) = hose_velocity(self.direction, self.velocity as int);
        ParticleBundle {
            id: 0,
            position: self.position,
            old_position: crate::particle::OldPosition(
                Vec2 {
                    x: clamp_coord(self.position.x - vx) as i64,
                    y: clamp_coord(self.position.y - vy) as i64,
                },
            ),
            radius: self.radius,
            mass: self.mass,
        }
    }

    /// A hose at the origin pointing along +x that releases one body per second,
    /// a hundred in all, each of radius one unit, mass one and speed one unit per tick.
    pub fn new() -> (h: ParticleHose)
        ensures
            h.wf(),
            h.period_ns == NANOS_PER_SECOND,
            h.elapsed_ns == 0,
            h.start_amount == 100,
            h.amount == 100,
            h.position == Vec2::spec_zero(),
            h.direction == (Vec2 { x: 1, y: 0 }),
            h.radius == SCALE,
            h.mass == 1,
            h.velocity == SCALE,
    {
        ParticleHose {
            period_ns: NANOS_PER_SECOND,
            elapsed_ns: 0,
            position: Vec2::zero(),
            start_amount: 100,
            amount: 100,
            radius: SCALE,
            mass: 1,
            velocity: SCALE,
            direction: Vec2 { x: 1, y: 0 },
        }
    }

    /// Releases `per_second` bodies per second; with zero the timer never completes.
    pub fn per_second(self, per_second: u32) -> (h: ParticleHose)
        ensures
            h == (ParticleHose {
                period_ns: if per_second == 0 {
                    u64::MAX
                } else {
                    (NANOS_PER_SECOND / per_second as u64) as u64
                },
                ..self
            }),
    {
        let period_ns = if per_second == 0 {
            u64::MAX
        } else {
            NANOS_PER_SECOND / per_second as u64
        };
        ParticleHose { period_ns, ..self }
    }

    /// The number of bodies to release in total.
    pub fn amount(self, amount: u32) -> (h: ParticleHose)
        ensures
            h == (ParticleHose { amount, start_amount: amount, ..self }),
    {
        ParticleHose { amount, start_amount: amount, ..self }
    }

    /// Radius of released bodies, in fixed-point steps.
    pub fn radius(self, radius: i64) -> (h: ParticleHose)
        ensures
            h == (ParticleHose { radius, ..self }),
    {
        ParticleHose { radius, ..self }
    }

    /// Mass of released bodies.
    pub fn mass(self, mass: i64) -> (h: ParticleHose)
        ensures
            h == (ParticleHose { mass, ..self }),
    {
        ParticleHose { mass, ..self }
    }

    /// Speed of released bodies, in fixed-point steps per tick, clamped to the
    /// size of the world.
    pub fn velocity(self, velo: i64) -> (h: ParticleHose)
        ensures
            h == (ParticleHose { velocity: clamp_coord(velo as int) as i64, ..self }),
    {
        ParticleHose { velocity: clamp_i128(velo as i128, -COORD_LIMIT, COORD_LIMIT), ..self }
    }

    /// Direction of the hose; each coordinate is clamped into the world.
    pub fn direction(self, direction: Vec2) -> (h: ParticleHose)
        ensures
            h == (ParticleHose {
                direction: Vec2 {
                    x: clamp_coord(direction.x as int) as i64,
                    y: clamp_coord(direction.y as int) as i64,
                },
                ..self
            }),
    {
        let d = Vec2 {
            x: clamp_i128(direction.x as i128, -COORD_LIMIT, COORD_LIMIT),
            y: clamp_i128(direction.y as i128, -COORD_LIMIT, COORD_LIMIT),
        };
        ParticleHose { direction: d, ..self }
    }

    /// Location of the hose; each coordinate is clamped into the world.
    pub fn position(self, pos: Vec2) -> (h: ParticleHose)
        ensures
            h == (ParticleHose {
                position: Vec2 {
                    x: clamp_coord(pos.x as int) as i64,
                    y: clamp_coord(pos.y as int) as i64,
                },
                ..self
            }),
    {
        let p = Vec2 {
            x: clamp_i128(pos.x as i128, -COORD_LIMIT, COORD_LIMIT),
            y: clamp_i128(pos.y as i128, -COORD_LIMIT, COORD_LIMIT),
        };
        ParticleHose { position: p, ..self }
    }

    /// Adds the hose to the list of running hoses.
    pub fn spawn(self, hoses: &mut Vec<ParticleHose>)
        ensures
            final(hoses)@ == old(hoses)@.push(self),
    {
        hoses.push(self);
    }

    /// Advances the hose's timer by `delta_ns` and says what to do: remove a hose
    /// that has run out, release one body each time the timer completes, and wait
    /// otherwise.
    pub fn tick(&mut self, delta_ns: u64) -> (action: HoseAction)
        requires
            old(self).wf(),
        ensures
            final(self).wf(),
            old(self).amount == 0 ==> action is Despawn && *final(self) == *old(self),
            old(self).amount > 0 ==> {
                let (fired, left) = timer_step(
                    old(self).elapsed_ns as int,
                    old(self).period_ns as int,
                    delta_ns as int,
                );
                &&& final(self).elapsed_ns == left
                &&& fired ==> action == HoseAction::Spawn(old(self).spec_bundle())
                    && final(self).amount == old(self).amount - 1
                &&& !fired ==> action is Wait && final(self).amount == old(self).amount
                &&& *final(self) == (ParticleHose {
                    elapsed_ns: final(self).elapsed_ns,
                    amount: final(self).amount,
                    ..*old(self)
                })
            },
    {
        if self.amount == 0 {
            return HoseAction::Despawn;
        }
        let fired: bool;
        if self.period_ns == 0 {
            fired = true;
            self.elapsed_ns = 0;
        } else {
            let total: u128 = self.elapsed_ns as u128 + delta_ns as u128;
            fired = total >= self.period_ns as u128;
            self.elapsed_ns = (total % self.period_ns as u128) as u64;
        }
        if !fired {
            return HoseAction::Wait;
        }
        let b = self.bundle();
        self.amount = self.amount - 1;
        HoseAction::Spawn(b)
    }

    /// The body the hose releases next: at the hose, with the hose's speed along
    /// its direction.
    pub fn bundle(&self) -> (b: ParticleBundle)
        requires
            self.wf(),
        ensures
            b == self.spec_bundle(),
            b.wf(),
    {
        let d = self.direction;
        let ax: u128 = if d.x < 0 {
            (-(d.x as i128)) as u128
        } else {
            d.x as u128
        };
        let ay: u128 = if d.y < 0 {
            (-(d.y as i128)) as u128
        } else {
            d.y as u128
        };
        assert(ax * ax + ay * ay == d.x * d.x + d.y * d.y && ax * ax + ay * ay
            < crate::geometry::SQ_LIMIT) by (nonlinear_arith)
            requires
                ax == abs(d.x as int),
                ay == abs(d.y as int),
                ax <= COORD_LIMIT,
                ay <= COORD_LIMIT,
        ;
        let n = ax * ax + ay * ay;
        let (vx, vy): (i64, i64) = if n == 0 {
            (0, 0)
        } else {
            let len = isqrt(n);
            assert(len >= 1) by (nonlinear_arith)
                requires
                    n >= 1,
                    n < (len + 1) * (len + 1),
                    len >= 0,
            ;
            proof {
                lemma_floor_sqrt_bounds_leg(d.x as int, d.y as int, len as int);
                assert(d.y * d.y + d.x * d.x == n);
                lemma_floor_sqrt_bounds_leg(d.y as int, d.x as int, len as int);
            }
            (
                scale_axis(d.x, self.velocity, len as u128),
                scale_axis(d.y, self.velocity, len as u128),
            )
        };
        let b = ParticleBundle {
            id: 0,
            position: self.position,
            old_position: crate::particle::OldPosition(self.position),
            radius: self.radius,
            mass: self.mass,
        };
        b.velocity(Vec2 { x: vx, y: vy })
    }
}

/// `delta · speed / len` rounded toward zero, for `|delta| <= len`.
fn scale_axis(delta: i64, speed: i64, len: u128) -> (r: i64)
    requires
        -COORD_LIMIT <= delta <= COORD_LIMIT,
        -COORD_LIMIT <= speed <= COORD_LIMIT,
        1 <= len,
        abs(delta as int) <= len,
    ensures
        r == scaled_axis(delta as int, speed as int, len as int),
        -COORD_LIMIT <= r <= COORD_LIMIT,
{
    let negative = (delta < 0) != (speed < 0);
    let md: u128 = if delta < 0 {
        (-(delta as i128)) as u128
    } else {
        delta as u128
    };
    let ms: u128 = if speed < 0 {
        (-(speed as i128)) as u128
    } else {
        speed as u128
    };
    assert(md * ms <= COORD_LIMIT * COORD_LIMIT) by (nonlinear_arith)
        requires
            md <= COORD_LIMIT,
            ms <= COORD_LIMIT,
    ;
    let num = md * ms;
    let q = num / len;
    assert(q <= ms) by (nonlinear_arith)
        requires
            q == num / len,
            num == md * ms,
            md <= len,
            len >= 1,
    ;
    assert(md * ms == abs(delta * speed)) by (nonlinear_arith)
        requires
            md == abs(delta as int),
            ms == abs(speed as int),
    ;
    assert(negative ==> delta * speed <= 0) by (nonlinear_arith)
        requires
            negative == ((delta < 0) != (speed < 0)),
    ;
    assert(!negative ==> delta * speed >= 0) by (nonlinear_arith)
        requires
            negative == ((delta < 0) != (speed < 0)),
    ;
    if negative {
        -(q as i64)
    } else {
        q as i64
    }
}

} // verus!
