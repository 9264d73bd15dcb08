//! Overlap relaxation: overlapping bodies are pushed apart, half the overlap each.
use vstd::prelude::*;

use crate::geometry::{
    abs, clamp_coord, clamp_i128, div_away, floor_sqrt, isqrt, lemma_floor_sqrt_bounds_leg,
    lemma_floor_sqrt_exists, Vec2,
    COORD_LIMIT, SQ_LIMIT,
};
use crate::gravity::DELTA_LIMIT;
use crate::pairs::{fold_all_pairs, fold_pairs, fold_row, PairStep};
use crate::particle::{all_wf, Particle};
use crate::simulation::SimSettings;

verus! {

/// The correction along one axis for an offset component `delta` between bodies at
/// distance `dist > 0` overlapping by `overlap`: `delta / dist · overlap / 2`,
/// rounded away from zero, so that an overlapping pair always moves.
pub open spec fn correction_axis(delta: int, dist: int, overlap: int) -> int {
    div_away(delta * overlap, 2 * dist)
}

/// The offset from `b` to `a`.
pub open spec fn offset(a: Particle, b: Particle) -> (int, int) {
    (a.position.x - b.position.x, a.position.y - b.position.y)
}

pub open spec fn separation_sq(a: Particle, b: Particle) -> int {
    let (dx, dy) = offset(a, b);
    dx * dx + dy * dy
}

/// The push that `a` receives (and `b` receives reversed) when the two overlap:
/// half the overlap along the unit offset from `b` to `a`, or along the x axis
/// when the two coincide, each component rounded away from zero.
pub open spec fn correction(a: Particle, b: Particle) -> (int, int) {
    let (dx, dy) = offset(a, b);
    let n = separation_sq(a, b);
    let dist = floor_sqrt(n);
    let overlap = a.radius.0 + b.radius.0 - dist;
    if n == 0 {
        ((overlap + 1) / 2, 0)
    } else {
        (correction_axis(dx, dist, overlap), correction_axis(dy, dist, overlap))
    }
}

/// Whether the two bodies overlap: their distance is below the sum of their radii.
pub open spec fn overlapping(a: Particle, b: Particle) -> bool {
    floor_sqrt(separation_sq(a, b)) < a.radius.0 + b.radius.0
}

/// `p` moved by `(cx, cy)`, clamped into the world. The old position is kept.
pub open spec fn shifted(p: Particle, cx: int, cy: int) -> Particle {
    Particle {
        position: Vec2 {
            x: clamp_coord(p.position.x + cx) as i64,
            y: clamp_coord(p.position.y + cy) as i64,
        },
        ..p
    }
}

/// Relaxation of the pair `(i, j)`: if the bodies overlap, `i` is pushed by the
/// correction and `j` by its reverse.
pub open spec fn collision_pair(ps: Seq<Particle>, i: int, j: int) -> Seq<Particle> {
    let a = ps[i];
    let b = ps[j];
    if !overlapping(a, b) {
        ps
    } else {
        let (cx, cy) = correction(a, b);
        ps.update(i, shifted(a, cx, cy)).update(j, shifted(b, -cx, -cy))
    }
}

pub open spec fn collision_step() -> PairStep {
    |ps: Seq<Particle>, i: int, j: int| collision_pair(ps, i, j)
}

/// One relaxation pass over every unordered pair, in index order.
pub open spec fn collision_substep(ps: Seq<Particle>) -> Seq<Particle> {
    fold_all_pairs(ps, collision_step())
}

/// The store after `k` relaxation passes.
pub open spec fn relax(ps: Seq<Particle>, k: nat) -> Seq<Particle>
    decreases k,
{
    if k == 0 {
        ps
    } else {
        collision_substep(relax(ps, (k - 1) as nat))
    }
}

/// `delta · overlap / (2 · dist)`, rounded away from zero.
fn correction_axis_exec(delta: i64, dist: u128, overlap: u128) -> (c: i128)
    requires
        -DELTA_LIMIT <= delta <= DELTA_LIMIT,
        1 <= dist <= 4_398_046_511_104u128,
        overlap <= DELTA_LIMIT,
    ensures
        c == correction_axis(delta as int, dist as int, overlap as int),
        -(DELTA_LIMIT * DELTA_LIMIT) <= c <= DELTA_LIMIT * DELTA_LIMIT,
{
    let mag: u128 = if delta < 0 {
        (-(delta as i128)) as u128
    } else {
        delta as u128
    };
    assert(mag * overlap <= DELTA_LIMIT * DELTA_LIMIT) by (nonlinear_arith)
        requires
            mag <= DELTA_LIMIT,
            overlap <= DELTA_LIMIT,
    ;
    let num = mag * overlap;
    let den = 2 * dist;
    let up = num + (den - 1);
    let q = up / den;
    assert(q <= num) by (nonlinear_arith)
        requires
            q == up / den,
            up == num + den - 1,
            den >= 1,
            num >= 0,
    ;
    assert((-(delta as int)) * (overlap as int) == -(delta * overlap)) by (nonlinear_arith);
    assert(delta < 0 ==> mag * overlap == (-(delta as int)) * (overlap as int));
    assert(delta >= 0 ==> delta * overlap >= 0) by (nonlinear_arith)
        requires
            overlap >= 0,
    ;
    assert(delta < 0 ==> delta * overlap <= 0) by (nonlinear_arith)
        requires
            overlap >= 0,
    ;
    if delta < 0 {
        if num == 0 {
            0
        } else {
            -(q as i128)
        }
    } else {
        q as i128
    }
}

fn shift_coord(v: i64, c: i128) -> (r: i64)
    requires
        -COORD_LIMIT <= v <= COORD_LIMIT,
        -(DELTA_LIMIT * DELTA_LIMIT) <= c <= DELTA_LIMIT * DELTA_LIMIT,
    ensures
        r == clamp_coord(v + c),
{
    clamp_i128(v as i128 + c, -COORD_LIMIT, COORD_LIMIT)
}

fn collision_pair_exec(particles: &mut Vec<Particle>, i: usize, j: usize)
    requires
        i < j < old(particles)@.len(),
        all_wf(old(particles)@),
    ensures
        final(particles)@ == collision_pair(old(particles)@, i as int, j as int),
        all_wf(final(particles)@),
{
    let a = particles[i];
    let b = particles[j];
    assert(a.wf() && b.wf()) by {
        assert(particles@[i as int].wf());
        assert(particles@[j as int].wf());
    }
    let dx: i64 = a.position.x - b.position.x;
    let dy: i64 = a.position.y - b.position.y;
    let ax: u128 = if dx < 0 {
        (-(dx as i128)) as u128
    } else {
        dx as u128
    };
    let ay: u128 = if dy < 0 {
        (-(dy as i128)) as u128
    } else {
        dy as u128
    };
    assert(ax * ax + ay * ay == dx * dx + dy * dy && ax * ax + ay * ay < SQ_LIMIT) by (nonlinear_arith)
        requires
            ax == abs(dx as int),
            ay == abs(dy as int),
            ax <= DELTA_LIMIT,
            ay <= DELTA_LIMIT,
    ;
    let dsq: u128 = ax * ax + ay * ay;
    let dist = isqrt(dsq);
    let rsum: i64 = a.radius.0 + b.radius.0;
    if dist as i64 >= rsum {
        return ;
    }
    let overlap: u128 = (rsum - dist as i64) as u128;
    let (cx, cy): (i128, i128) = if dsq == 0 {
        (((overlap + 1) / 2) as i128, 0)
    } else {
        assert(dist >= 1) by (nonlinear_arith)
            requires
                dsq >= 1,
                dsq < (dist + 1) * (dist + 1),
                dist >= 0,
        ;
        (
            correction_axis_exec(dx, dist as u128, overlap),
            correction_axis_exec(dy, dist as u128, overlap),
        )
    };
    let na = Vec2 { x: shift_coord(a.position.x, cx), y: shift_coord(a.position.y, cy) };
    let nb = Vec2 { x: shift_coord(b.position.x, -cx), y: shift_coord(b.position.y, -cy) };
    let ghost ps = particles@;
    particles.set(i, Particle { position: na, ..a });
    particles.set(j, Particle { position: nb, ..b });
    assert forall|k: int| 0 <= k < particles@.len() implies #[trigger] particles@[k].wf() by {
        if k != i && k != j {
            assert(ps[k].wf());
        }
    }
}

/// One relaxation pass over every unordered pair of the store, in index order, each
/// pair seeing the corrections of the pairs before it.
fn collision_substep_exec(particles: &mut Vec<Particle>)
    requires
        all_wf(old(particles)@),
    ensures
        final(particles)@ == collision_substep(old(particles)@),
        all_wf(final(particles)@),
{
    let n = particles.len();
    let ghost start = particles@;
    let ghost step = collision_step();
    for i in 0..n
        invariant
            n == particles@.len(),
            step == collision_step(),
            start == old(particles)@,
            start.len() == n,
            all_wf(particles@),
            particles@ == fold_pairs(start, step, i as int, n as int),
    {
        let mut j = i + 1;
        while j < n
            invariant
                i < n,
                i + 1 <= j <= n,
                n == particles@.len(),
                step == collision_step(),
                all_wf(particles@),
                particles@ == fold_row(fold_pairs(start, step, i as int, n as int), step, i as int, j as int),
            decreases n - j,
        {
            collision_pair_exec(particles, i, j);
            j = j + 1;
        }
    }
}

/// Relaxes overlaps when collisions are enabled: as many passes as the settings
/// ask for, at least one; none when collisions are off.
pub fn calculate_collisions(particles: &mut Vec<Particle>, settings: &SimSettings)
    requires
        all_wf(old(particles)@),
    ensures
        final(particles)@ == relax(old(particles)@, settings.spec_substeps() as nat),
        all_wf(final(particles)@),
{
    let steps = settings.effective_substeps();
    for k in 0..steps
        invariant
            all_wf(particles@),
            particles@ == relax(old(particles)@, k as nat),
    {
        collision_substep_exec(particles);
    }
}

/// Pushing two coordinates apart along their offset never shrinks the offset.
proof fn lemma_axis_grows(a: int, b: int, c: int)
    requires
        -COORD_LIMIT <= a <= COORD_LIMIT,
        -COORD_LIMIT <= b <= COORD_LIMIT,
        a - b >= 0 ==> c >= 0,
        a - b < 0 ==> c <= 0,
    ensures
        (clamp_coord(a + c) - clamp_coord(b - c)) * (clamp_coord(a + c) - clamp_coord(b - c)) >= (a
            - b) * (a - b),
        c != 0 && abs(a - b) < 2 * COORD_LIMIT ==> (clamp_coord(a + c) - clamp_coord(b - c)) * (
        clamp_coord(a + c) - clamp_coord(b - c)) > (a - b) * (a - b),
{
    let e = clamp_coord(a + c) - clamp_coord(b - c);
    let d = a - b;
    if d >= 0 {
        assert(e >= d);
        assert(e * e >= d * d) by (nonlinear_arith)
            requires
                e >= d >= 0,
        ;
        if c != 0 && abs(a - b) < 2 * COORD_LIMIT {
            assert(e > d);
            assert(e * e > d * d) by (nonlinear_arith)
                requires
                    e > d >= 0,
            ;
        }
    } else {
        assert(e <= d);
        assert(e * e >= d * d) by (nonlinear_arith)
            requires
                e <= d < 0,
        ;
        if c != 0 && abs(a - b) < 2 * COORD_LIMIT {
            assert(e < d);
            assert(e * e > d * d) by (nonlinear_arith)
                requires
                    e < d < 0,
            ;
        }
    }
}

/// The correction along an axis points the same way as the offset.
proof fn lemma_correction_axis_sign(delta: int, dist: int, overlap: int)
    requires
        dist >= 1,
        overlap >= 0,
    ensures
        delta >= 0 ==> correction_axis(delta, dist, overlap) >= 0,
        delta < 0 ==> correction_axis(delta, dist, overlap) <= 0,
        delta != 0 && overlap >= 1 ==> correction_axis(delta, dist, overlap) != 0,
{
    let den = 2 * dist;
    if delta >= 0 {
        let num = delta * overlap;
        assert(num >= 0) by (nonlinear_arith)
            requires
                delta >= 0,
                overlap >= 0,
                num == delta * overlap,
        ;
        if delta != 0 && overlap >= 1 {
            assert(num >= 1) by (nonlinear_arith)
                requires
                    delta >= 1,
                    overlap >= 1,
                    num == delta * overlap,
            ;
            assert((num + den - 1) / den >= 1) by (nonlinear_arith)
                requires
                    num >= 1,
                    den >= 1,
            ;
        }
        assert((num + den - 1) / den >= 0) by (nonlinear_arith)
            requires
                num >= 0,
                den >= 1,
        ;
    } else {
        if overlap == 0 {
            assert(delta * overlap == 0) by (nonlinear_arith)
                requires
                    overlap == 0,
            ;
            assert((0 + den - 1) / den == 0) by (nonlinear_arith)
                requires
                    den >= 1,
            ;
        }
        let num = -(delta * overlap);
        assert(num >= 0) by (nonlinear_arith)
            requires
                delta < 0,
                overlap >= 0,
                num == -(delta * overlap),
        ;
        if overlap >= 1 {
            assert(num >= 1) by (nonlinear_arith)
                requires
                    delta <= -1,
                    overlap >= 1,
                    num == -(delta * overlap),
            ;
            assert((num + den - 1) / den >= 1) by (nonlinear_arith)
                requires
                    num >= 1,
                    den >= 1,
            ;
        }
        assert((num + den - 1) / den >= 0) by (nonlinear_arith)
            requires
                num >= 0,
                den >= 1,
        ;
    }
}

/// Relaxing the pair `(i, j)` never brings its bodies closer, and pushes an
/// overlapping pair strictly apart: their squared distance afterwards is at least
/// the one before, and greater when they overlapped.
pub proof fn lemma_collision_pair_separates(ps: Seq<Particle>, i: int, j: int)
    requires
        0 <= i < j < ps.len(),
        all_wf(ps),
    ensures
        separation_sq(collision_pair(ps, i, j)[i], collision_pair(ps, i, j)[j]) >= separation_sq(
            ps[i],
            ps[j],
        ),
        overlapping(ps[i], ps[j]) ==> separation_sq(collision_pair(ps, i, j)[i], collision_pair(
            ps,
            i,
            j,
        )[j]) > separation_sq(ps[i], ps[j]),
{
    let a = ps[i];
    let b = ps[j];
    assert(a.wf() && b.wf());
    if overlapping(a, b) {
        let (dx, dy) = offset(a, b);
        let n = separation_sq(a, b);
        assert(n >= 0) by (nonlinear_arith)
            requires
                n == dx * dx + dy * dy,
        ;
        lemma_floor_sqrt_exists(n);
        let dist = floor_sqrt(n);
        let overlap = a.radius.0 + b.radius.0 - dist;
        let (cx, cy) = correction(a, b);
        if n == 0 {
            assert(dx == 0 && dy == 0) by (nonlinear_arith)
                requires
                    dx * dx + dy * dy == 0,
            ;
        } else {
            assert(dist >= 1) by (nonlinear_arith)
                requires
                    n >= 1,
                    n < (dist + 1) * (dist + 1),
                    dist >= 0,
            ;
            lemma_correction_axis_sign(dx, dist, overlap);
            lemma_correction_axis_sign(dy, dist, overlap);
            lemma_floor_sqrt_exists(n);
            lemma_floor_sqrt_bounds_leg(dx, dy, dist);
            assert(dy * dy + dx * dx == n);
            lemma_floor_sqrt_bounds_leg(dy, dx, dist);
            assert(dx != 0 || dy != 0) by (nonlinear_arith)
                requires
                    n == dx * dx + dy * dy,
                    n >= 1,
            ;
        }
        lemma_axis_grows(a.position.x as int, b.position.x as int, cx);
        lemma_axis_grows(a.position.y as int, b.position.y as int, cy);
        let out = collision_pair(ps, i, j);
        let ex = out[i].position.x - out[j].position.x;
        let ey = out[i].position.y - out[j].position.y;
        assert(ex * ex + ey * ey > dx * dx + dy * dy);
        assert(out[i] == shifted(a, cx, cy));
        assert(out[j] == shifted(b, -cx, -cy));
    }
}

/// For two bodies, a relaxation pass never brings them closer, and pushes them
/// strictly apart when they overlap.
pub proof fn lemma_relaxation_monotonic(a: Particle, b: Particle)
    requires
        a.wf(),
        b.wf(),
    ensures
        ({
            let out = collision_substep(seq![a, b]);
            &&& out.len() == 2
            &&& separation_sq(out[0], out[1]) >= separation_sq(a, b)
            &&& overlapping(a, b) ==> separation_sq(out[0], out[1]) > separation_sq(a, b)
        }),
{
    let ps = seq![a, b];
    let step = collision_step();
    assert(fold_pairs(ps, step, 0, 2) == ps);
    assert(fold_row(ps, step, 0, 1) == ps);
    assert(fold_row(ps, step, 0, 2) == collision_pair(ps, 0, 1));
    assert(fold_pairs(ps, step, 1, 2) == collision_pair(ps, 0, 1));
    let mid = collision_pair(ps, 0, 1);
    assert(fold_row(mid, step, 1, 2) == mid);
    assert(collision_substep(ps) == mid);
    assert(all_wf(ps)) by {
        assert(ps[0] == a);
        assert(ps[1] == b);
    }
    lemma_collision_pair_separates(ps, 0, 1);
}

} // verus!
