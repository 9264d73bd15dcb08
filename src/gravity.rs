//! Pairwise Newtonian gravity, softened by contact radius.
use vstd::prelude::*;

use crate::geometry::{
    abs, ceil_sqrt, clamp_accel, clamp_i128, isqrt_ceil, lemma_ceil_sqrt, Vec2,
    ACCEL_LIMIT, SCALE_CUBED, SQ_LIMIT,
};
use crate::pairs::{fold_all_pairs, fold_pairs, fold_row, PairStep};
use crate::particle::{all_wf, Acceleration, Particle, MASS_LIMIT};
use crate::simulation::{SimSettings, GRAVITY_LIMIT};

verus! {

/// Bound on `G · m` over admissible settings and masses (2^36).
pub const PULL_LIMIT: u64 = 68_719_476_736;

/// Bound on a coordinate difference between two bodies (2^41).
pub const DELTA_LIMIT: i64 = 2_199_023_255_552;

/// Bound (inclusive) on a softened distance (2^42).
pub const DISTANCE_LIMIT: u128 = 4_398_046_511_104;

/// One component of the acceleration that a pull `k = G · m` exerts across the
/// offset component `delta` at softened distance `d`: `k · delta / d³` in
/// fixed-point units, rounded toward zero and capped at `ACCEL_LIMIT`.
pub open spec fn gravity_term(k: int, delta: int, d: int) -> int {
    let mag = k * (SCALE_CUBED as int) * abs(delta) / (d * d * d);
    let capped = if mag > ACCEL_LIMIT {
        ACCEL_LIMIT as int
    } else {
        mag
    };
    if delta < 0 {
        -capped
    } else {
        capped
    }
}

pub open spec fn dist_sq(a: Particle, b: Particle) -> int {
    let dx = b.position.x - a.position.x;
    let dy = b.position.y - a.position.y;
    dx * dx + dy * dy
}

/// The distance between two bodies, its square root rounded up so that it is never
/// below the true distance, and never less than the sum of their radii.
pub open spec fn softened_distance(a: Particle, b: Particle) -> int {
    let root = ceil_sqrt(dist_sq(a, b));
    let rsum = a.radius.0 + b.radius.0;
    if root < rsum {
        rsum
    } else {
        root
    }
}

pub open spec fn with_acceleration(p: Particle, a: Vec2) -> Particle {
    Particle { acceleration: Acceleration(a), ..p }
}

/// The pull of `b` added to `a`'s accumulator (each component clamped).
pub open spec fn pulled_toward(a: Particle, b: Particle, g: int) -> Vec2 {
    let d = softened_distance(a, b);
    let k = g * b.mass.0;
    Vec2 {
        x: clamp_accel(a.acceleration.0.x + gravity_term(k, b.position.x - a.position.x, d)) as i64,
        y: clamp_accel(a.acceleration.0.y + gravity_term(k, b.position.y - a.position.y, d)) as i64,
    }
}

/// Gravity between bodies `i` and `j`: `i` is pulled toward `j` by `j`'s mass and
/// `j` toward `i` by `i`'s mass. Coincident bodies exert nothing on each other.
pub open spec fn gravity_pair(ps: Seq<Particle>, g: int, i: int, j: int) -> Seq<Particle> {
    let a = ps[i];
    let b = ps[j];
    if dist_sq(a, b) == 0 {
        ps
    } else {
        ps.update(i, with_acceleration(a, pulled_toward(a, b, g))).update(
            j,
            with_acceleration(b, pulled_toward(b, a, g)),
        )
    }
}

pub proof fn lemma_dist_sq_symmetric(a: Particle, b: Particle)
    ensures
        dist_sq(a, b) == dist_sq(b, a),
        softened_distance(a, b) == softened_distance(b, a),
{
    let dx = b.position.x - a.position.x;
    let dy = b.position.y - a.position.y;
    assert((-dx) * (-dx) == dx * dx && (-dy) * (-dy) == dy * dy) by (nonlinear_arith);
}

pub open spec fn gravity_step(g: int) -> PairStep {
    |ps: Seq<Particle>, i: int, j: int| gravity_pair(ps, g, i, j)
}

/// Every accumulator set to zero.
pub open spec fn reset_accelerations(ps: Seq<Particle>) -> Seq<Particle> {
    Seq::new(ps.len(), |i: int| with_acceleration(ps[i], Vec2::spec_zero()))
}

/// The store after a full gravity pass with constant `g`.
pub open spec fn gravity_pass(ps: Seq<Particle>, g: int) -> Seq<Particle> {
    fold_all_pairs(reset_accelerations(ps), gravity_step(g))
}

fn gravity_term_exec(k: u64, delta: i64, d: u128) -> (t: i64)
    requires
        k <= PULL_LIMIT,
        -DELTA_LIMIT <= delta <= DELTA_LIMIT,
        1 <= d <= DISTANCE_LIMIT,
    ensures
        t == gravity_term(k as int, delta as int, d as int),
        -ACCEL_LIMIT <= t <= ACCEL_LIMIT,
{
    let mag_delta: u128 = if delta < 0 {
        (-(delta as i128)) as u128
    } else {
        delta as u128
    };
    assert(mag_delta == abs(delta as int));
    assert(d * d * d <= DISTANCE_LIMIT * DISTANCE_LIMIT * DISTANCE_LIMIT
        && d * d <= DISTANCE_LIMIT * DISTANCE_LIMIT && d * d * d >= 1) by (nonlinear_arith)
        requires
            1 <= d <= DISTANCE_LIMIT,
    ;
    let d3 = d * d * d;
    assert(k * SCALE_CUBED <= PULL_LIMIT * SCALE_CUBED
        && k * SCALE_CUBED * mag_delta <= PULL_LIMIT * SCALE_CUBED * DELTA_LIMIT) by (nonlinear_arith)
        requires
            k <= PULL_LIMIT,
            mag_delta <= DELTA_LIMIT,
    ;
    let num = (k as u128) * SCALE_CUBED * mag_delta;
    let mag = num / d3;
    let capped: i64 = if mag > ACCEL_LIMIT as u128 {
        ACCEL_LIMIT
    } else {
        mag as i64
    };
    if delta < 0 {
        -capped
    } else {
        capped
    }
}

fn pulled_toward_exec(a: &Particle, b: &Particle, g: u64, dx: i64, dy: i64, d: u128) -> (r: Vec2)
    requires
        a.wf(),
        b.wf(),
        g <= GRAVITY_LIMIT,
        dx == b.position.x - a.position.x,
        dy == b.position.y - a.position.y,
        d == softened_distance(*a, *b),
        1 <= d <= DISTANCE_LIMIT,
    ensures
        r == pulled_toward(*a, *b, g as int),
        r.accel_bounded(),
{
    assert(g * b.mass.0 <= GRAVITY_LIMIT * MASS_LIMIT) by (nonlinear_arith)
        requires
            g <= GRAVITY_LIMIT,
            b.mass.0 <= MASS_LIMIT,
    ;
    let k = g * (b.mass.0 as u64);
    let tx = gravity_term_exec(k, dx, d);
    let ty = gravity_term_exec(k, dy, d);
    Vec2 {
        x: clamp_i128(a.acceleration.0.x as i128 + tx as i128, -ACCEL_LIMIT, ACCEL_LIMIT),
        y: clamp_i128(a.acceleration.0.y as i128 + ty as i128, -ACCEL_LIMIT, ACCEL_LIMIT),
    }
}

fn gravity_pair_exec(particles: &mut Vec<Particle>, g: u64, i: usize, j: usize)
    requires
        i < j < old(particles)@.len(),
        all_wf(old(particles)@),
        g <= GRAVITY_LIMIT,
    ensures
        final(particles)@ == gravity_pair(old(particles)@, g as int, i as int, j as int),
        all_wf(final(particles)@),
{
    let a = particles[i];
    let b = particles[j];
    assert(a.wf() && b.wf()) by {
        assert(particles@[i as int].wf());
        assert(particles@[j as int].wf());
    }
    let dx: i64 = b.position.x - a.position.x;
    let dy: i64 = b.position.y - a.position.y;
    let ax: u128 = if dx < 0 {
        (-(dx as i128)) as u128
    } else {
        dx as u128
    };
    let ay: u128 = if dy < 0 {
        (-(dy as i128)) as u128
    } else {
        dy as u128
    };
    assert(ax * ax + ay * ay == dx * dx + dy * dy && ax * ax + ay * ay < SQ_LIMIT) by (nonlinear_arith)
        requires
            ax == abs(dx as int),
            ay == abs(dy as int),
            ax <= DELTA_LIMIT,
            ay <= DELTA_LIMIT,
    ;
    let dsq: u128 = ax * ax + ay * ay;
    if dsq == 0 {
        return ;
    }
    let root = isqrt_ceil(dsq);
    proof {
        lemma_ceil_sqrt(dsq as int);
    }
    let rsum: i64 = a.radius.0 + b.radius.0;
    let d: u128 = if (root as i64) < rsum {
        rsum as u128
    } else {
        root as u128
    };
    let na = pulled_toward_exec(&a, &b, g, dx, dy, d);
    proof {
        lemma_dist_sq_symmetric(a, b);
    }
    let nb = pulled_toward_exec(&b, &a, g, -dx, -dy, d);
    let ghost ps = particles@;
    particles.set(i, Particle { acceleration: Acceleration(na), ..a });
    particles.set(j, Particle { acceleration: Acceleration(nb), ..b });
    assert forall|k: int| 0 <= k < particles@.len() implies #[trigger] particles@[k].wf() by {
        if k != i && k != j {
            assert(ps[k].wf());
        }
    }
}

/// Recomputes every body's acceleration: the accumulators are reset to zero, then
/// every unordered pair is visited in index order and pulls its two bodies toward
/// each other. The result is an acceleration, not a velocity change: the time
/// step enters only through the integrator's `dt²` term.
pub fn calc_grav_accel(particles: &mut Vec<Particle>, settings: &SimSettings)
    requires
        all_wf(old(particles)@),
    ensures
        final(particles)@ == gravity_pass(old(particles)@, settings.spec_gravity()),
        all_wf(final(particles)@),
{
    let g = settings.effective_gravity();
    let n = particles.len();
    for i in 0..n
        invariant
            n == particles@.len(),
            old(particles)@.len() == n,
            all_wf(old(particles)@),
            all_wf(particles@),
            forall|k: int| i <= k < n ==> particles@[k] == old(particles)@[k],
            forall|k: int|
                0 <= k < i ==> #[trigger] particles@[k] == with_acceleration(
                    old(particles)@[k],
                    Vec2::spec_zero(),
                ),
    {
        let p = particles[i];
        assert(particles@[i as int].wf());
        let ghost prev = particles@;
        particles.set(i, Particle { acceleration: Acceleration(Vec2::zero()), ..p });
        assert forall|k: int| 0 <= k < n implies #[trigger] particles@[k].wf() by {
            if k != i {
                assert(prev[k].wf());
            }
        }
    }
    let ghost start = particles@;
    assert(start =~= reset_accelerations(old(particles)@));
    let ghost step = gravity_step(g as int);
    for i in 0..n
        invariant
            n == particles@.len(),
            g <= GRAVITY_LIMIT,
            step == gravity_step(g as int),
            start.len() == n,
            all_wf(particles@),
            particles@ == fold_pairs(start, step, i as int, n as int),
    {
        let mut j = i + 1;
        while j < n
            invariant
                i < n,
                i + 1 <= j <= n,
                n == particles@.len(),
                g <= GRAVITY_LIMIT,
                step == gravity_step(g as int),
                all_wf(particles@),
                particles@ == fold_row(fold_pairs(start, step, i as int, n as int), step, i as int, j as int),
            decreases n - j,
        {
            gravity_pair_exec(particles, g, i, j);
            j = j + 1;
        }
    }
}

/// The sign of a gravity term follows the offset it acts along.
pub proof fn lemma_gravity_term_sign(k: int, delta: int, d: int)
    requires
        k >= 0,
        d >= 1,
    ensures
        delta >= 0 ==> 0 <= gravity_term(k, delta, d) <= ACCEL_LIMIT,
        delta < 0 ==> -ACCEL_LIMIT <= gravity_term(k, delta, d) <= 0,
{
    assert(k * (SCALE_CUBED as int) * abs(delta) >= 0 && d * d * d >= 1) by (nonlinear_arith)
        requires
            k >= 0,
            d >= 1,
    ;
}

/// Reversing the offset reverses the term.
pub proof fn lemma_gravity_term_odd(k: int, delta: int, d: int)
    requires
        d >= 1,
    ensures
        gravity_term(k, -delta, d) == -gravity_term(k, delta, d),
{
    let m = k * (SCALE_CUBED as int) * abs(delta) / (d * d * d);
    assert(abs(-delta) == abs(delta));
    assert(k * (SCALE_CUBED as int) * abs(-delta) / (d * d * d) == m);
    if delta == 0 {
        assert(abs(delta) == 0);
        assert(k * (SCALE_CUBED as int) * 0 == 0) by (nonlinear_arith);
        assert(d * d * d >= 1) by (nonlinear_arith)
            requires
                d >= 1,
        ;
    }
}

/// Newton's third law for an isolated pair: after a gravity pass over two bodies,
/// the first is pulled toward the second by the term of the second's mass, and the
/// second is pulled back along the same offset by the term of the first's mass.
/// Each component of the two accelerations points in opposite directions, and
/// bodies of equal mass receive exactly opposite accelerations.
pub proof fn lemma_gravity_pair_antisymmetric(a: Particle, b: Particle, g: int)
    requires
        a.wf(),
        b.wf(),
        0 <= g <= GRAVITY_LIMIT,
    ensures
        ({
            let out = gravity_pass(seq![a, b], g);
            let dx = b.position.x - a.position.x;
            let dy = b.position.y - a.position.y;
            let d = softened_distance(a, b);
            &&& out.len() == 2
            &&& dist_sq(a, b) != 0 ==> {
                &&& out[0].acceleration.0.x == gravity_term(g * b.mass.0, dx, d)
                &&& out[0].acceleration.0.y == gravity_term(g * b.mass.0, dy, d)
                &&& out[1].acceleration.0.x == -gravity_term(g * a.mass.0, dx, d)
                &&& out[1].acceleration.0.y == -gravity_term(g * a.mass.0, dy, d)
            }
            &&& dist_sq(a, b) == 0 ==> out[0].acceleration.0 == Vec2::spec_zero()
                && out[1].acceleration.0 == Vec2::spec_zero()
            &&& out[0].acceleration.0.x * out[1].acceleration.0.x <= 0
            &&& out[0].acceleration.0.y * out[1].acceleration.0.y <= 0
            &&& a.mass == b.mass ==> out[0].acceleration.0.x == -out[1].acceleration.0.x
                && out[0].acceleration.0.y == -out[1].acceleration.0.y
        }),
{
    let ps = seq![a, b];
    let start = reset_accelerations(ps);
    let step = gravity_step(g);
    assert(fold_pairs(start, step, 0, 2) == start);
    assert(fold_row(start, step, 0, 1) == start);
    assert(fold_row(start, step, 0, 2) == gravity_pair(start, g, 0, 1));
    assert(fold_pairs(start, step, 1, 2) == gravity_pair(start, g, 0, 1));
    let mid = gravity_pair(start, g, 0, 1);
    assert(fold_row(mid, step, 1, 2) == mid);
    assert(gravity_pass(ps, g) == mid);
    let a0 = start[0];
    let b0 = start[1];
    assert(a0 == with_acceleration(a, Vec2::spec_zero()));
    assert(b0 == with_acceleration(b, Vec2::spec_zero()));
    let dx = b.position.x - a.position.x;
    let dy = b.position.y - a.position.y;
    if dist_sq(a0, b0) != 0 {
        lemma_dist_sq_symmetric(a0, b0);
        let d = softened_distance(a, b);
        assert(d >= 1) by {
            let n = dist_sq(a, b);
            assert(n >= 0) by (nonlinear_arith)
                requires
                    n == dx * dx + dy * dy,
            ;
            lemma_ceil_sqrt(n);
        }
        assert(g * b.mass.0 >= 0 && g * a.mass.0 >= 0) by (nonlinear_arith)
            requires
                g >= 0,
                a.mass.0 >= 0,
                b.mass.0 >= 0,
        ;
        lemma_gravity_term_sign(g * b.mass.0, dx, d);
        lemma_gravity_term_sign(g * b.mass.0, dy, d);
        lemma_gravity_term_sign(g * a.mass.0, dx, d);
        lemma_gravity_term_sign(g * a.mass.0, dy, d);
        lemma_gravity_term_sign(g * a.mass.0, -dx, d);
        lemma_gravity_term_sign(g * a.mass.0, -dy, d);
        let p = g * b.mass.0;
        let q = g * a.mass.0;
        let u = gravity_term(p, dx, d);
        let v = gravity_term(q, dx, d);
        lemma_gravity_term_odd(q, dx, d);
        lemma_gravity_term_odd(q, dy, d);
        assert(u * (-v) <= 0) by (nonlinear_arith)
            requires
                (u >= 0 && v >= 0) || (u <= 0 && v <= 0),
        ;
        let uy = gravity_term(p, dy, d);
        let vy = gravity_term(q, dy, d);
        assert(uy * (-vy) <= 0) by (nonlinear_arith)
            requires
                (uy >= 0 && vy >= 0) || (uy <= 0 && vy <= 0),
        ;
    }
}

/// A term never exceeds the exact pull: `|t| · d³ <= k · SCALE³ · |delta|`.
proof fn lemma_gravity_term_bound(k: int, delta: int, d: int)
    requires
        k >= 0,
        d >= 1,
    ensures
        abs(gravity_term(k, delta, d)) * (d * d * d) <= k * (SCALE_CUBED as int) * abs(delta),
{
    let num = k * (SCALE_CUBED as int) * abs(delta);
    let den = d * d * d;
    assert(num >= 0 && den >= 1) by (nonlinear_arith)
        requires
            k >= 0,
            d >= 1,
            abs(delta) >= 0,
            num == k * (SCALE_CUBED as int) * abs(delta),
            den == d * d * d,
            SCALE_CUBED > 0,
    ;
    let mag = num / den;
    assert(mag * den <= num && mag >= 0) by (nonlinear_arith)
        requires
            mag == num / den,
            num >= 0,
            den >= 1,
    ;
    let t = gravity_term(k, delta, d);
    assert(0 <= abs(t) <= mag);
    assert(abs(t) * den <= mag * den) by (nonlinear_arith)
        requires
            0 <= abs(t) <= mag,
            den >= 1,
    ;
}

/// From per-axis bounds to a bound on the vector: with `dx² + dy² <= d²` and
/// `r <= d`, `|t|² · r⁴ <= K²`.
proof fn lemma_vector_bound(big_k: int, dx: int, dy: int, d: int, r: int, tx: int, ty: int)
    requires
        big_k >= 0,
        d >= 1,
        0 <= r <= d,
        dx * dx + dy * dy <= d * d,
        abs(tx) * (d * d * d) <= big_k * abs(dx),
        abs(ty) * (d * d * d) <= big_k * abs(dy),
    ensures
        (tx * tx + ty * ty) * (r * r * r * r) <= big_k * big_k,
{
    let d3 = d * d * d;
    let ax = abs(tx) * d3;
    let ay = abs(ty) * d3;
    assert(ax >= 0 && ay >= 0) by (nonlinear_arith)
        requires
            ax == abs(tx) * d3,
            ay == abs(ty) * d3,
            d3 == d * d * d,
            d >= 1,
    ;
    assert(ax * ax <= (big_k * abs(dx)) * (big_k * abs(dx))) by (nonlinear_arith)
        requires
            0 <= ax <= big_k * abs(dx),
    ;
    assert(ay * ay <= (big_k * abs(dy)) * (big_k * abs(dy))) by (nonlinear_arith)
        requires
            0 <= ay <= big_k * abs(dy),
    ;
    let x = tx * tx + ty * ty;
    assert(x >= 0) by (nonlinear_arith)
        requires
            x == tx * tx + ty * ty,
    ;
    assert(x * (d3 * d3) == ax * ax + ay * ay) by (nonlinear_arith)
        requires
            ax == abs(tx) * d3,
            ay == abs(ty) * d3,
            x == tx * tx + ty * ty,
    ;
    assert((big_k * abs(dx)) * (big_k * abs(dx)) + (big_k * abs(dy)) * (big_k * abs(dy)) == big_k
        * big_k * (dx * dx + dy * dy)) by (nonlinear_arith);
    assert(big_k * big_k * (dx * dx + dy * dy) <= big_k * big_k * (d * d)) by (nonlinear_arith)
        requires
            dx * dx + dy * dy <= d * d,
    ;
    assert(x * (d * d * d * d) <= big_k * big_k) by (nonlinear_arith)
        requires
            x * (d3 * d3) <= big_k * big_k * (d * d),
            d3 == d * d * d,
            d >= 1,
            x >= 0,
    ;
    assert(x * (r * r * r * r) <= x * (d * d * d * d)) by (nonlinear_arith)
        requires
            0 <= r <= d,
            x >= 0,
    ;
}

/// Softening by contact radius bounds the pull: for two bodies alone, each one's
/// acceleration has length at most `G · m_other · SCALE³ / (r0 + r1)²`, stated
/// without division as `|a|² · (r0 + r1)⁴ <= (G · m_other · SCALE³)²`.
pub proof fn lemma_gravity_pair_softened(a: Particle, b: Particle, g: int)
    requires
        a.wf(),
        b.wf(),
        0 <= g <= GRAVITY_LIMIT,
    ensures
        ({
            let out = gravity_pass(seq![a, b], g);
            let r = a.radius.0 + b.radius.0;
            let r4 = r * r * r * r;
            let ka = g * b.mass.0 * (SCALE_CUBED as int);
            let kb = g * a.mass.0 * (SCALE_CUBED as int);
            let u = out[0].acceleration.0;
            let v = out[1].acceleration.0;
            &&& (u.x * u.x + u.y * u.y) * r4 <= ka * ka
            &&& (v.x * v.x + v.y * v.y) * r4 <= kb * kb
        }),
{
    lemma_gravity_pair_antisymmetric(a, b, g);
    let out = gravity_pass(seq![a, b], g);
    let r = a.radius.0 + b.radius.0;
    let p = g * b.mass.0;
    let q = g * a.mass.0;
    assert(p >= 0 && q >= 0) by (nonlinear_arith)
        requires
            g >= 0,
            a.mass.0 >= 0,
            b.mass.0 >= 0,
            p == g * b.mass.0,
            q == g * a.mass.0,
    ;
    let ka = p * (SCALE_CUBED as int);
    let kb = q * (SCALE_CUBED as int);
    assert(ka == g * b.mass.0 * (SCALE_CUBED as int));
    assert(kb == g * a.mass.0 * (SCALE_CUBED as int));
    let dx = b.position.x - a.position.x;
    let dy = b.position.y - a.position.y;
    let n = dist_sq(a, b);
    if n == 0 {
        assert(r * r * r * r >= 0) by (nonlinear_arith);
        assert(ka * ka >= 0 && kb * kb >= 0) by (nonlinear_arith);
    } else {
        assert(n >= 0) by (nonlinear_arith)
            requires
                n == dx * dx + dy * dy,
        ;
        lemma_ceil_sqrt(n);
        let d = softened_distance(a, b);
        assert(n <= d * d) by (nonlinear_arith)
            requires
                n <= ceil_sqrt(n) * ceil_sqrt(n),
                0 <= ceil_sqrt(n) <= d,
        ;
        lemma_gravity_term_bound(p, dx, d);
        lemma_gravity_term_bound(p, dy, d);
        lemma_gravity_term_bound(q, dx, d);
        lemma_gravity_term_bound(q, dy, d);
        lemma_vector_bound(ka, dx, dy, d, r, gravity_term(p, dx, d), gravity_term(p, dy, d));
        let vx = gravity_term(q, dx, d);
        let vy = gravity_term(q, dy, d);
        assert(abs(-vx) == abs(vx) && abs(-vy) == abs(vy));
        lemma_vector_bound(kb, dx, dy, d, r, -vx, -vy);
    }
}

} // verus!
