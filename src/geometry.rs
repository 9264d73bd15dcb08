//! Fixed-point plane geometry shared by the solvers and the quadtree.
use vstd::prelude::*;

verus! {

/// Number of fixed-point steps in one world unit.
pub const SCALE: i64 = 65536;

/// `SCALE` cubed, the factor that keeps gravity in fixed-point acceleration units.
pub const SCALE_CUBED: u128 = 281_474_976_710_656;

/// Largest magnitude of a coordinate (2^40 steps, 2^24 world units).
pub const COORD_LIMIT: i64 = 1_099_511_627_776;

/// Largest magnitude of a coordinate in whole world units.
pub const WORLD_UNITS: i32 = 16_777_216;

/// Largest magnitude of an acceleration component (2^60 steps per second squared).
pub const ACCEL_LIMIT: i64 = 1_152_921_504_606_846_976;

/// Upper bound (exclusive) on the squared distances handed to `isqrt` (2^84).
pub const SQ_LIMIT: u128 = 19_342_813_113_834_066_795_298_816;

/// A point or a vector in fixed-point world coordinates.
#[derive(Clone, Copy, Debug, PartialEq, Eq, Structural)]
pub struct Vec2 {
    pub x: i64,
    pub y: i64,
}

pub open spec fn clamp(v: int, lo: int, hi: int) -> int {
    if v < lo {
        lo
    } else if v > hi {
        hi
    } else {
        v
    }
}

/// A coordinate pushed back into `[-COORD_LIMIT, COORD_LIMIT]`.
pub open spec fn clamp_coord(v: int) -> int {
    clamp(v, -COORD_LIMIT, COORD_LIMIT as int)
}

/// An acceleration component pushed back into `[-ACCEL_LIMIT, ACCEL_LIMIT]`.
pub open spec fn clamp_accel(v: int) -> int {
    clamp(v, -ACCEL_LIMIT, ACCEL_LIMIT as int)
}

pub open spec fn abs(v: int) -> int {
    if v < 0 {
        -v
    } else {
        v
    }
}

/// Division rounding toward zero, so that `div_trunc(-a, b) == -div_trunc(a, b)`.
pub open spec fn div_trunc(a: int, b: int) -> int {
    if a >= 0 {
        a / b
    } else {
        -((-a) / b)
    }
}

/// Division rounding away from zero, so that `div_away(-a, b) == -div_away(a, b)`
/// and any non-zero `a` gives a non-zero result.
pub open spec fn div_away(a: int, b: int) -> int {
    if a >= 0 {
        (a + b - 1) / b
    } else {
        -(((-a) + b - 1) / b)
    }
}

pub open spec fn coord_ok(v: int) -> bool {
    -COORD_LIMIT <= v <= COORD_LIMIT
}

pub open spec fn accel_ok(v: int) -> bool {
    -ACCEL_LIMIT <= v <= ACCEL_LIMIT
}

impl Vec2 {
    /// Both coordinates lie in the representable world.
    pub open spec fn in_world(self) -> bool {
        coord_ok(self.x as int) && coord_ok(self.y as int)
    }

    /// Both components are admissible accelerations.
    pub open spec fn accel_bounded(self) -> bool {
        accel_ok(self.x as int) && accel_ok(self.y as int)
    }

    pub open spec fn spec_zero() -> Vec2 {
        Vec2 { x: 0, y: 0 }
    }

    pub fn new(x: i64, y: i64) -> (r: Vec2)
        ensures
            r.x == x,
            r.y == y,
    {
        Vec2 { x, y }
    }

    pub fn zero() -> (r: Vec2)
        ensures
            r.x == 0,
            r.y == 0,
    {
        Vec2 { x: 0, y: 0 }
    }

    /// The point `(x, y)` given in whole world units.
    pub fn from_units(x: i32, y: i32) -> (r: Vec2)
        requires
            -WORLD_UNITS <= x <= WORLD_UNITS,
            -WORLD_UNITS <= y <= WORLD_UNITS,
        ensures
            r.x == x * SCALE,
            r.y == y * SCALE,
            r.in_world(),
    {
        Vec2 { x: fixed_units(x), y: fixed_units(y) }
    }
}

/// `n` whole world units as a fixed-point length.
pub fn fixed_units(n: i32) -> (r: i64)
    requires
        -WORLD_UNITS <= n <= WORLD_UNITS,
    ensures
        r == n * SCALE,
        coord_ok(r as int),
{
    assert(-16_777_216 * 65536 <= n * 65536 <= 16_777_216 * 65536) by (nonlinear_arith)
        requires
            -16_777_216 <= n <= 16_777_216,
    ;
    n as i64 * SCALE
}

/// `v` clamped into `[lo, hi]`.
pub fn clamp_i128(v: i128, lo: i64, hi: i64) -> (r: i64)
    requires
        lo <= hi,
    ensures
        r == clamp(v as int, lo as int, hi as int),
{
    if v < lo as i128 {
        lo
    } else if v > hi as i128 {
        hi
    } else {
        v as i64
    }
}

/// `a / b` rounded toward zero, on a numerator given as sign and magnitude.
pub fn div_trunc_signed(negative: bool, magnitude: u128, b: u128) -> (r: i128)
    requires
        b > 0,
        magnitude <= i64::MAX,
    ensures
        r == div_trunc(if negative { -(magnitude as int) } else { magnitude as int }, b as int),
        -(magnitude as int) <= r <= magnitude,
{
    let q = magnitude / b;
    assert(q <= magnitude) by (nonlinear_arith)
        requires
            q == magnitude / b,
            b > 0,
    ;
    if negative && magnitude > 0 {
        -(q as i128)
    } else {
        q as i128
    }
}

/// `r` is the integer square root of `n`, rounded down.
pub open spec fn is_floor_sqrt(n: int, r: int) -> bool {
    0 <= r && r * r <= n && n < (r + 1) * (r + 1)
}

/// The integer square root of a non-negative `n`, rounded down.
pub open spec fn floor_sqrt(n: int) -> int {
    choose|r: int| is_floor_sqrt(n, r)
}

pub proof fn lemma_floor_sqrt_unique(n: int, r1: int, r2: int)
    requires
        is_floor_sqrt(n, r1),
        is_floor_sqrt(n, r2),
    ensures
        r1 == r2,
{
    if r1 < r2 {
        assert((r1 + 1) * (r1 + 1) <= r2 * r2) by (nonlinear_arith)
            requires
                0 <= r1 + 1 <= r2,
        ;
    } else if r2 < r1 {
        assert((r2 + 1) * (r2 + 1) <= r1 * r1) by (nonlinear_arith)
            requires
                0 <= r2 + 1 <= r1,
        ;
    }
}

/// Every non-negative integer has a floor square root.
pub proof fn lemma_floor_sqrt_exists(n: int)
    requires
        0 <= n,
    ensures
        is_floor_sqrt(n, floor_sqrt(n)),
    decreases n,
{
    if n == 0 {
        assert(is_floor_sqrt(0, 0));
    } else {
        lemma_floor_sqrt_exists(n - 1);
        let r = floor_sqrt(n - 1);
        if (r + 1) * (r + 1) <= n {
            assert(n < (r + 2) * (r + 2)) by (nonlinear_arith)
                requires
                    n - 1 < (r + 1) * (r + 1),
                    r >= 0,
            ;
            assert(is_floor_sqrt(n, r + 1));
        } else {
            assert(is_floor_sqrt(n, r));
        }
    }
}

/// The floor square root is at least every coordinate of a vector whose squared length it roots.
pub proof fn lemma_floor_sqrt_bounds_leg(a: int, b: int, r: int)
    requires
        is_floor_sqrt(a * a + b * b, r),
    ensures
        abs(a) <= r,
{
    assert(a * a == abs(a) * abs(a)) by (nonlinear_arith);
    assert(b * b >= 0) by (nonlinear_arith);
    if abs(a) > r {
        assert((r + 1) * (r + 1) <= abs(a) * abs(a)) by (nonlinear_arith)
            requires
                0 <= r + 1 <= abs(a),
        ;
    }
}

/// Integer square root rounded down, by bisection.
pub fn isqrt(n: u128) -> (r: u64)
    requires
        n < SQ_LIMIT,
    ensures
        is_floor_sqrt(n as int, r as int),
        r == floor_sqrt(n as int),
        r < 4_398_046_511_104,
{
    let mut lo: u64 = 0;
    let mut hi: u64 = 4_398_046_511_104;
    assert(hi as int * hi as int == SQ_LIMIT) by (nonlinear_arith)
        requires
            hi == 4_398_046_511_104u64,
    ;
    while hi - lo > 1
        invariant
            lo < hi <= 4_398_046_511_104u64,
            lo as int * lo as int <= n as int,
            (n as int) < hi as int * hi as int,
        decreases hi - lo,
    {
        let mid: u64 = lo + (hi - lo) / 2;
        assert(mid as int * mid as int <= 4_398_046_511_104 * 4_398_046_511_104) by (nonlinear_arith)
            requires
                0 <= mid <= 4_398_046_511_104u64,
        ;
        if (mid as u128) * (mid as u128) <= n {
            lo = mid;
        } else {
            hi = mid;
        }
    }
    proof {
        assert(hi == lo + 1);
        assert(is_floor_sqrt(n as int, lo as int));
        lemma_floor_sqrt_unique(n as int, lo as int, floor_sqrt(n as int));
    }
    lo
}

/// The integer square root of a non-negative `n`, rounded up.
pub open spec fn ceil_sqrt(n: int) -> int {
    let r = floor_sqrt(n);
    if r * r == n {
        r
    } else {
        r + 1
    }
}

/// The rounded-up root is the least `c` with `n <= c * c`.
pub proof fn lemma_ceil_sqrt(n: int)
    requires
        0 <= n,
    ensures
        0 <= ceil_sqrt(n),
        n <= ceil_sqrt(n) * ceil_sqrt(n),
        n >= 1 ==> ceil_sqrt(n) >= 1,
        floor_sqrt(n) <= ceil_sqrt(n) <= floor_sqrt(n) + 1,
{
    lemma_floor_sqrt_exists(n);
    let r = floor_sqrt(n);
    if r * r != n {
        assert(n <= (r + 1) * (r + 1));
    }
    if n >= 1 && r == 0 {
        assert(r * r == 0) by (nonlinear_arith)
            requires
                r == 0,
        ;
    }
}

/// Integer square root rounded up.
pub fn isqrt_ceil(n: u128) -> (r: u64)
    requires
        n < SQ_LIMIT,
    ensures
        r == ceil_sqrt(n as int),
        r <= 4_398_046_511_104,
{
    let f = isqrt(n);
    assert(f as int * f as int <= n) by {
        assert(is_floor_sqrt(n as int, f as int));
    }
    if (f as u128) * (f as u128) == n {
        f
    } else {
        f + 1
    }
}

} // verus!
