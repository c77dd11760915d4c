//! Integer vectors and axis-aligned rectangles.
use vstd::prelude::*;

verus! {

/// World units per pixel: positions and sizes keep sub-pixel precision.
pub const UNITS_PER_PIXEL: i64 = 1000;

/// Bound on every coordinate, offset and size held in the world; positions
/// that would leave it are held at the boundary.
pub const POSITION_LIMIT: i64 = 1_099_511_627_776;

/// A value that may stand as a coordinate in the world.
pub open spec fn in_world(v: int) -> bool {
    -POSITION_LIMIT <= v <= POSITION_LIMIT
}

/// Clamps a value into the world's bounds.
pub open spec fn clamp_world(v: int) -> int {
    if v < -POSITION_LIMIT {
        -POSITION_LIMIT as int
    } else if v > POSITION_LIMIT {
        POSITION_LIMIT as int
    } else {
        v
    }
}

pub open spec fn max_int(a: int, b: int) -> int {
    if a >= b { a } else { b }
}

pub open spec fn min_int(a: int, b: int) -> int {
    if a <= b { a } else { b }
}

pub open spec fn sign(v: int) -> int {
    if v > 0 { 1 } else if v < 0 { -1 } else { 0 }
}

/// Division rounding toward zero.
pub open spec fn div_toward_zero(a: int, b: int) -> int {
    if a >= 0 { a / b } else { -((-a) / b) }
}

pub fn clamp_to_world(v: i128) -> (r: i64)
    ensures
        r == clamp_world(v as int),
{
    if v < -(POSITION_LIMIT as i128) {
        -POSITION_LIMIT
    } else if v > POSITION_LIMIT as i128 {
        POSITION_LIMIT
    } else {
        v as i64
    }
}

pub fn div_round_toward_zero(a: i128, b: i128) -> (r: i128)
    requires
        b > 0,
        a > i128::MIN,
    ensures
        r == div_toward_zero(a as int, b as int),
{
    if a >= 0 {
        a / b
    } else {
        let q = (-a) / b;
        -q
    }
}

/// A 2D vector in world units.
#[derive(Clone, Copy, Debug, PartialEq, Eq, Structural)]
pub struct Vec2 {
    pub x: i64,
    pub y: i64,
}

impl Vec2 {
    pub open spec fn in_world(self) -> bool {
        in_world(self.x as int) && in_world(self.y as int)
    }

    pub fn new(x: i64, y: i64) -> (r: Vec2)
        ensures
            r.x == x && r.y == y,
    {
        Vec2 { x, y }
    }

    pub open spec fn zero_spec() -> Vec2 {
        Vec2 { x: 0, y: 0 }
    }

    pub fn zero() -> (r: Vec2)
        ensures
            r == Vec2::zero_spec(),
    {
        Vec2 { x: 0, y: 0 }
    }
}

/// A translation: a 2D position plus a depth used only for drawing order.
#[derive(Clone, Copy, Debug, PartialEq, Eq, Structural)]
pub struct Vec3 {
    pub x: i64,
    pub y: i64,
    pub z: i64,
}

impl Vec3 {
    pub open spec fn in_world(self) -> bool {
        in_world(self.x as int) && in_world(self.y as int) && in_world(self.z as int)
    }

    pub fn new(x: i64, y: i64, z: i64) -> (r: Vec3)
        ensures
            r.x == x && r.y == y && r.z == z,
    {
        Vec3 { x, y, z }
    }

    pub fn truncate(&self) -> (r: Vec2)
        ensures
            r.x == self.x && r.y == self.y,
    {
        Vec2 { x: self.x, y: self.y }
    }
}

/// An axis-aligned rectangle whose bounds are kept in half units (twice the
/// world scale), so that a whole center and any whole size give whole bounds.
#[derive(Clone, Copy, Debug, PartialEq, Eq, Structural)]
pub struct Rect {
    pub min_x: i64,
    pub min_y: i64,
    pub max_x: i64,
    pub max_y: i64,
}

impl Rect {
    /// The rectangle centered at `center` with extent `size`, both in world units.
    pub open spec fn centered_spec(center: Vec2, size: Vec2) -> Rect {
        Rect {
            min_x: (2 * center.x - size.x) as i64,
            min_y: (2 * center.y - size.y) as i64,
            max_x: (2 * center.x + size.x) as i64,
            max_y: (2 * center.y + size.y) as i64,
        }
    }

    pub open spec fn bounded(self) -> bool {
        -8 * POSITION_LIMIT <= self.min_x <= 8 * POSITION_LIMIT
            && -8 * POSITION_LIMIT <= self.min_y <= 8 * POSITION_LIMIT
            && -8 * POSITION_LIMIT <= self.max_x <= 8 * POSITION_LIMIT
            && -8 * POSITION_LIMIT <= self.max_y <= 8 * POSITION_LIMIT
    }

    pub open spec fn intersect_spec(self, o: Rect) -> Rect {
        Rect {
            min_x: max_int(self.min_x as int, o.min_x as int) as i64,
            min_y: max_int(self.min_y as int, o.min_y as int) as i64,
            max_x: min_int(self.max_x as int, o.max_x as int) as i64,
            max_y: min_int(self.max_y as int, o.max_y as int) as i64,
        }
    }

    /// A rectangle with no area: touching edges do not count as overlap.
    pub open spec fn is_empty_spec(self) -> bool {
        self.min_x >= self.max_x || self.min_y >= self.max_y
    }

    /// Two rectangles overlap when their intersection has area.
    pub open spec fn overlaps(self, o: Rect) -> bool {
        !self.intersect_spec(o).is_empty_spec()
    }

    pub fn from_center_size(center: Vec2, size: Vec2) -> (r: Rect)
        requires
            -2 * POSITION_LIMIT <= center.x <= 2 * POSITION_LIMIT,
            -2 * POSITION_LIMIT <= center.y <= 2 * POSITION_LIMIT,
            size.in_world(),
        ensures
            r == Rect::centered_spec(center, size),
            r.bounded(),
    {
        Rect {
            min_x: 2 * center.x - size.x,
            min_y: 2 * center.y - size.y,
            max_x: 2 * center.x + size.x,
            max_y: 2 * center.y + size.y,
        }
    }

    pub fn intersect(&self, o: &Rect) -> (r: Rect)
        ensures
            r == self.intersect_spec(*o),
    {
        Rect {
            min_x: if self.min_x >= o.min_x { self.min_x } else { o.min_x },
            min_y: if self.min_y >= o.min_y { self.min_y } else { o.min_y },
            max_x: if self.max_x <= o.max_x { self.max_x } else { o.max_x },
            max_y: if self.max_y <= o.max_y { self.max_y } else { o.max_y },
        }
    }

    pub fn is_empty(&self) -> (r: bool)
        ensures
            r == self.is_empty_spec(),
    {
        self.min_x >= self.max_x || self.min_y >= self.max_y
    }

    /// Width in half units.
    pub fn width(&self) -> (r: i64)
        requires
            self.bounded(),
        ensures
            r == self.max_x - self.min_x,
    {
        self.max_x - self.min_x
    }

    /// Height in half units.
    pub fn height(&self) -> (r: i64)
        requires
            self.bounded(),
        ensures
            r == self.max_y - self.min_y,
    {
        self.max_y - self.min_y
    }

    /// Twice the center, in half units (exact for any bounds).
    pub fn center_sum(&self) -> (r: Vec2)
        requires
            self.bounded(),
        ensures
            r.x == self.min_x + self.max_x,
            r.y == self.min_y + self.max_y,
    {
        Vec2 { x: self.min_x + self.max_x, y: self.min_y + self.max_y }
    }
}

/// Overlap is symmetric.
pub proof fn lemma_overlaps_symmetric(a: Rect, b: Rect)
    ensures
        a.overlaps(b) == b.overlaps(a),
{
}

/// `r` is the integer square root of `n`.
pub open spec fn is_root(n: int, r: int) -> bool {
    0 <= r && r * r <= n < (r + 1) * (r + 1)
}

proof fn lemma_root_unique(n: int, a: int, b: int)
    requires
        is_root(n, a),
        is_root(n, b),
    ensures
        a == b,
{
    if a < b {
        assert((a + 1) * (a + 1) <= b * b) by (nonlinear_arith)
            requires
                0 <= a < b,
        ;
    } else if b < a {
        assert((b + 1) * (b + 1) <= a * a) by (nonlinear_arith)
            requires
                0 <= b < a,
        ;
    }
}

/// The integer square root: the largest `r` with `r * r <= n`.
pub open spec fn isqrt(n: int) -> int {
    choose|r: int| is_root(n, r)
}

/// Largest component a direction may have.
pub const DIRECTION_LIMIT: i128 = 4_398_046_511_104;

/// Factor applied to a direction before its length is taken, so that the
/// integer square root keeps the precision of short directions.
pub const DIRECTION_SCALE: i128 = 1_048_576;

/// Largest component of a direction once scaled.
pub const SCALED_LIMIT: i128 = 4_611_686_018_427_387_904;

/// The integer square root of `n`, by bisection.
pub fn integer_sqrt(n: u128) -> (r: u128)
    requires
        n <= SCALED_LIMIT * SCALED_LIMIT * 2,
    ensures
        r == isqrt(n as int),
        is_root(n as int, r as int),
        r < 0x8000_0000_0000_0001u128,
{
    let mut lo: u128 = 0;
    let mut hi: u128 = 0x8000_0000_0000_0001;
    assert(hi * hi > n) by (nonlinear_arith)
        requires
            hi == 0x8000_0000_0000_0001u128,
            n <= SCALED_LIMIT * SCALED_LIMIT * 2,
    ;
    while hi - lo > 1
        invariant
            lo < hi <= 0x8000_0000_0000_0001u128,
            lo * lo <= n,
            n < hi * hi,
        decreases hi - lo,
    {
        let mid = lo + (hi - lo) / 2;
        assert(mid * mid <= 0x8000_0000_0000_0001u128 * 0x8000_0000_0000_0001u128) by (nonlinear_arith)
            requires
                mid <= 0x8000_0000_0000_0001u128,
        ;
        if mid * mid <= n {
            lo = mid;
        } else {
            hi = mid;
        }
    }
    assert(hi == lo + 1);
    proof {
        assert(is_root(n as int, lo as int));
        lemma_root_unique(n as int, lo as int, isqrt(n as int));
    }
    lo
}

/// `(x, y)` rescaled to length `k` (each component rounded toward zero), or
/// zero for the zero vector; exact up to the precision of the integer root
/// of `x * x + y * y`.
pub open spec fn scaled_raw(x: int, y: int, k: int) -> (int, int) {
    if x == 0 && y == 0 {
        (0, 0)
    } else {
        let len = isqrt(x * x + y * y);
        (div_toward_zero(x * k, len), div_toward_zero(y * k, len))
    }
}

proof fn lemma_component_within_length(x: int, y: int, r: int)
    requires
        is_root(x * x + y * y, r),
    ensures
        -r <= x <= r,
{
    assert(x * x <= x * x + y * y) by (nonlinear_arith);
    if x > r {
        assert((r + 1) * (r + 1) <= x * x) by (nonlinear_arith)
            requires
                x > r >= 0,
        ;
    } else if x < -r {
        assert((r + 1) * (r + 1) <= x * x) by (nonlinear_arith)
            requires
                -x > r >= 0,
        ;
    }
}

pub proof fn lemma_scaled_bound(x: int, k: int, r: int)
    requires
        -r <= x <= r,
        r > 0,
        0 <= k,
    ensures
        -k <= div_toward_zero(x * k, r) <= k,
{
    if x >= 0 {
        assert(x * k <= r * k) by (nonlinear_arith)
            requires
                0 <= x <= r,
                0 <= k,
        ;
        assert((x * k) / r <= (r * k) / r) by (nonlinear_arith)
            requires
                x * k <= r * k,
                r > 0,
        ;
        assert((r * k) / r == k) by (nonlinear_arith)
            requires
                r > 0,
        ;
        assert(x * k >= 0) by (nonlinear_arith)
            requires
                x >= 0,
                k >= 0,
        ;
    } else {
        assert((-x) * k <= r * k) by (nonlinear_arith)
            requires
                0 <= -x <= r,
                0 <= k,
        ;
        assert(-(x * k) == (-x) * k) by (nonlinear_arith);
        assert(((-x) * k) / r <= (r * k) / r) by (nonlinear_arith)
            requires
                (-x) * k <= r * k,
                r > 0,
        ;
        assert((r * k) / r == k) by (nonlinear_arith)
            requires
                r > 0,
        ;
        assert((-x) * k >= 0) by (nonlinear_arith)
            requires
                -x >= 0,
                k >= 0,
        ;
    }
}

/// `(x, y)` rescaled to length `k`, each component rounded toward zero:
/// the direction is first scaled up so that short directions keep their
/// precision.
pub open spec fn scaled_to(x: int, y: int, k: int) -> (int, int) {
    scaled_raw(x * DIRECTION_SCALE, y * DIRECTION_SCALE, k)
}

/// Rescales `(x, y)` to length `k`: the direction kept, the length replaced.
pub fn scale_to_length(x: i64, y: i64, k: i64) -> (r: (i64, i64))
    requires
        -DIRECTION_LIMIT <= x <= DIRECTION_LIMIT,
        -DIRECTION_LIMIT <= y <= DIRECTION_LIMIT,
        0 <= k <= POSITION_LIMIT,
    ensures
        (r.0 as int, r.1 as int) == scaled_to(x as int, y as int, k as int),
        -k <= r.0 <= k,
        -k <= r.1 <= k,
{
    assert(-SCALED_LIMIT <= x * DIRECTION_SCALE <= SCALED_LIMIT) by (nonlinear_arith)
        requires
            -DIRECTION_LIMIT <= x <= DIRECTION_LIMIT,
    ;
    assert(-SCALED_LIMIT <= y * DIRECTION_SCALE <= SCALED_LIMIT) by (nonlinear_arith)
        requires
            -DIRECTION_LIMIT <= y <= DIRECTION_LIMIT,
    ;
    scale_raw(x * (DIRECTION_SCALE as i64), y * (DIRECTION_SCALE as i64), k)
}

fn scale_raw(x: i64, y: i64, k: i64) -> (r: (i64, i64))
    requires
        -SCALED_LIMIT <= x <= SCALED_LIMIT,
        -SCALED_LIMIT <= y <= SCALED_LIMIT,
        0 <= k <= POSITION_LIMIT,
    ensures
        (r.0 as int, r.1 as int) == scaled_raw(x as int, y as int, k as int),
        -k <= r.0 <= k,
        -k <= r.1 <= k,
{
    if x == 0 && y == 0 {
        return (0, 0);
    }
    let (xw, yw, kw) = (x as i128, y as i128, k as i128);
    assert(xw * xw <= SCALED_LIMIT * SCALED_LIMIT) by (nonlinear_arith)
        requires
            -SCALED_LIMIT <= xw <= SCALED_LIMIT,
    ;
    assert(yw * yw <= SCALED_LIMIT * SCALED_LIMIT) by (nonlinear_arith)
        requires
            -SCALED_LIMIT <= yw <= SCALED_LIMIT,
    ;
    assert(xw * xw >= 0 && yw * yw >= 0) by (nonlinear_arith);
    let sq = (xw * xw + yw * yw) as u128;
    assert(sq as int == x * x + y * y);
    let root = integer_sqrt(sq);
    let len = root as i128;
    proof {
        assert(len as int == root as int);
        assert(y * y + x * x == x * x + y * y);
        lemma_component_within_length(x as int, y as int, len as int);
        lemma_component_within_length(y as int, x as int, len as int);
        if len == 0 {
            assert(xw * xw + yw * yw < 1);
            assert(xw * xw >= 0 && yw * yw >= 0) by (nonlinear_arith);
            assert(x == 0) by (nonlinear_arith)
                requires
                    x * x == 0,
            ;
            assert(y == 0) by (nonlinear_arith)
                requires
                    y * y == 0,
            ;
        }
        lemma_scaled_bound(x as int, k as int, len as int);
        lemma_scaled_bound(y as int, k as int, len as int);
        assert(-SCALED_LIMIT * POSITION_LIMIT <= xw * kw <= SCALED_LIMIT * POSITION_LIMIT) by (nonlinear_arith)
            requires
                -SCALED_LIMIT <= xw <= SCALED_LIMIT,
                0 <= kw <= POSITION_LIMIT,
        ;
        assert(-SCALED_LIMIT * POSITION_LIMIT <= yw * kw <= SCALED_LIMIT * POSITION_LIMIT) by (nonlinear_arith)
            requires
                -SCALED_LIMIT <= yw <= SCALED_LIMIT,
                0 <= kw <= POSITION_LIMIT,
        ;
    }
    let rx = div_round_toward_zero(xw * kw, len);
    let ry = div_round_toward_zero(yw * kw, len);
    (rx as i64, ry as i64)
}

pub proof fn lemma_scaled_to_bounded(x: int, y: int, k: int)
    requires
        -DIRECTION_LIMIT <= x <= DIRECTION_LIMIT,
        -DIRECTION_LIMIT <= y <= DIRECTION_LIMIT,
        0 <= k,
    ensures
        -k <= scaled_to(x, y, k).0 <= k,
        -k <= scaled_to(x, y, k).1 <= k,
{
    assert(-SCALED_LIMIT <= x * DIRECTION_SCALE <= SCALED_LIMIT) by (nonlinear_arith)
        requires
            -DIRECTION_LIMIT <= x <= DIRECTION_LIMIT,
    ;
    assert(-SCALED_LIMIT <= y * DIRECTION_SCALE <= SCALED_LIMIT) by (nonlinear_arith)
        requires
            -DIRECTION_LIMIT <= y <= DIRECTION_LIMIT,
    ;
    lemma_scaled_raw_bounded(x * DIRECTION_SCALE, y * DIRECTION_SCALE, k);
}

proof fn lemma_scaled_raw_bounded(x: int, y: int, k: int)
    requires
        -SCALED_LIMIT <= x <= SCALED_LIMIT,
        -SCALED_LIMIT <= y <= SCALED_LIMIT,
        0 <= k,
    ensures
        -k <= scaled_raw(x, y, k).0 <= k,
        -k <= scaled_raw(x, y, k).1 <= k,
{
    if !(x == 0 && y == 0) {
        let n = x * x + y * y;
        assert(x * x >= 0 && y * y >= 0) by (nonlinear_arith);
        assert(x * x <= SCALED_LIMIT * SCALED_LIMIT) by (nonlinear_arith)
            requires
                -SCALED_LIMIT <= x <= SCALED_LIMIT,
        ;
        assert(y * y <= SCALED_LIMIT * SCALED_LIMIT) by (nonlinear_arith)
            requires
                -SCALED_LIMIT <= y <= SCALED_LIMIT,
        ;
        let r = integer_sqrt_exists(n);
        lemma_root_unique(n, r, isqrt(n));
        lemma_component_within_length(x, y, r);
        assert(y * y + x * x == n);
        lemma_component_within_length(y, x, r);
        if r == 0 {
            assert(x == 0) by (nonlinear_arith)
                requires
                    x * x + y * y < 1,
                    y * y >= 0,
            ;
            assert(y == 0) by (nonlinear_arith)
                requires
                    x * x + y * y < 1,
                    x * x >= 0,
            ;
        }
        lemma_scaled_bound(x, k, r);
        lemma_scaled_bound(y, k, r);
    }
}

/// Every natural number has an integer square root.
proof fn integer_sqrt_exists(n: int) -> (r: int)
    requires
        n >= 0,
    ensures
        is_root(n, r),
    decreases n,
{
    if n == 0 {
        assert(is_root(0, 0)) by (nonlinear_arith);
        0
    } else {
        let q = integer_sqrt_exists(n - 1);
        if (q + 1) * (q + 1) <= n {
            assert((q + 1) * (q + 1) == n) by (nonlinear_arith)
                requires
                    (q + 1) * (q + 1) <= n,
                    n - 1 < (q + 1) * (q + 1),
            ;
            assert(n < (q + 2) * (q + 2)) by (nonlinear_arith)
                requires
                    (q + 1) * (q + 1) == n,
                    q >= 0,
            ;
            q + 1
        } else {
            assert(is_root(n, q)) by (nonlinear_arith)
                requires
                    q >= 0,
                    q * q <= n - 1,
                    !((q + 1) * (q + 1) <= n),
            ;
            q
        }
    }
}

} // verus!
