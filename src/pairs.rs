//! Folds of a pairwise update over every unordered pair of bodies, in index order.
use vstd::prelude::*;

use crate::particle::Particle;

verus! {

/// An update of the store for the pair `(i, j)`, `i < j`.
pub type PairStep = spec_fn(Seq<Particle>, int, int) -> Seq<Particle>;

/// The store after `step` on the pairs `(i, i + 1), ..., (i, j - 1)`, in that order.
pub open spec fn fold_row(ps: Seq<Particle>, step: PairStep, i: int, j: int) -> Seq<Particle>
    decreases j - i,
{
    if j <= i + 1 {
        ps
    } else {
        step(fold_row(ps, step, i, j - 1), i, j - 1)
    }
}

/// The store after `step` on every pair `(a, b)` with `a < i` and `a < b < n`,
/// row by row in increasing `a`, each row in increasing `b`.
pub open spec fn fold_pairs(ps: Seq<Particle>, step: PairStep, i: int, n: int) -> Seq<Particle>
    decreases i,
{
    if i <= 0 {
        ps
    } else {
        fold_row(fold_pairs(ps, step, i - 1, n), step, i - 1, n)
    }
}

/// The store after `step` on every unordered pair of its bodies.
pub open spec fn fold_all_pairs(ps: Seq<Particle>, step: PairStep) -> Seq<Particle> {
    fold_pairs(ps, step, ps.len() as int, ps.len() as int)
}

} // verus!
