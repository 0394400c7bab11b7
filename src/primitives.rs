//! Vectors and lines over fixed-point coordinates.
use vstd::prelude::*;
use crate::arith::{floor_div, isqrt, sqrt_floor, is_sqrt_floor, SCALE, EPSILON, COORD_MAX, CROSS_TOL};

verus! {

/// Extra precision factor used inside `normalize`, so that short vectors keep their direction.
pub const NORM_BOOST: i64 = 65536;

/// Vectors shorter than this many ticks are stretched by `LIFT` before they are normalized.
pub const LIFT_BELOW: i64 = 1_048_576;

/// The stretch factor for short vectors.
pub const LIFT: i64 = 2_097_152;

/// One unit long within the tolerance, at scale `SCALE`.
pub open spec fn is_unit(u: Vector) -> bool {
    (SCALE - EPSILON) * (SCALE - EPSILON) <= u.norm_sq() <= (SCALE + EPSILON) * (SCALE + EPSILON)
}

/// A point or a direction; each component is a number of ticks.
#[derive(Clone, Copy, Debug)]
pub struct Vector {
    pub x: i64,
    pub y: i64,
}

/// The line `{ p : p . u = d }`; `u` is a unit normal scaled by `SCALE`, `d` is in ticks.
#[derive(Clone, Copy, Debug)]
pub struct Line {
    pub u: Vector,
    pub d: i64,
}

/// Two endpoints of a clipped line.
#[derive(Clone, Copy, Debug)]
pub struct Segment {
    pub a: Vector,
    pub b: Vector,
}

/// Absolute value.
pub open spec fn abs_int(v: int) -> int {
    if v < 0 { -v } else { v }
}

/// `a` and `b` differ by less than the shared tolerance.
pub open spec fn near(a: int, b: int) -> bool {
    abs_int(a - b) < EPSILON
}

/// A number whose square is at most `n` is at most the floor of its root.
pub proof fn lemma_sqrt_floor_ge(s: int, n: int)
    requires
        0 <= s,
        s * s <= n,
    ensures
        s <= sqrt_floor(n),
{
    assert(n >= 0) by (nonlinear_arith) requires s * s <= n;
    let r = sqrt_floor(n);
    lemma_sqrt_exists(n);
    assert(is_sqrt_floor(n, r));
    if s > r {
        assert((r + 1) * (r + 1) <= s * s) by (nonlinear_arith)
            requires 0 <= r, r + 1 <= s;
    }
}

/// Every non-negative number has a floor square root.
pub proof fn lemma_sqrt_exists(n: int)
    requires
        n >= 0,
    ensures
        exists|r: int| #[trigger] is_sqrt_floor(n, r),
    decreases n,
{
    if n == 0 {
        assert(is_sqrt_floor(0, 0));
    } else {
        lemma_sqrt_exists(n - 1);
        let r = choose|r: int| #[trigger] is_sqrt_floor(n - 1, r);
        if n < (r + 1) * (r + 1) {
            assert(is_sqrt_floor(n, r));
        } else {
            assert(n == (r + 1) * (r + 1));
            assert(n < (r + 2) * (r + 2)) by (nonlinear_arith)
                requires n == (r + 1) * (r + 1), r >= 0;
            assert(is_sqrt_floor(n, r + 1));
        }
    }
}

/// `a * SCALE / m` stays within one unit when `|a| <= m`.
proof fn lemma_unit_quotient(a: int, m: int)
    requires
        0 < m,
        -m <= a <= m,
    ensures
        -SCALE <= (a * SCALE) / m <= SCALE,
{
    assert(-m * SCALE <= a * SCALE <= m * SCALE) by (nonlinear_arith)
        requires -m <= a <= m;
    vstd::arithmetic::div_mod::lemma_div_is_ordered(a * SCALE, m * SCALE, m);
    vstd::arithmetic::div_mod::lemma_div_is_ordered(-m * SCALE, a * SCALE, m);
    assert((m * SCALE) / m == SCALE as int) by {
        vstd::arithmetic::div_mod::lemma_div_multiples_vanish(SCALE as int, m);
    }
    assert((-m * SCALE) / m == -SCALE) by {
        assert(-m * SCALE == m * (-SCALE)) by (nonlinear_arith);
        vstd::arithmetic::div_mod::lemma_div_multiples_vanish(-SCALE as int, m);
    }
}

impl Vector {
    /// Both components lie in `[-m, m]`.
    pub open spec fn within(self, m: int) -> bool {
        -m <= self.x <= m && -m <= self.y <= m
    }

    pub open spec fn add_spec(self, o: Vector) -> Vector {
        Vector { x: (self.x + o.x) as i64, y: (self.y + o.y) as i64 }
    }

    pub open spec fn sub_spec(self, o: Vector) -> Vector {
        Vector { x: (self.x - o.x) as i64, y: (self.y - o.y) as i64 }
    }

    pub open spec fn scale_spec(self, f: int) -> Vector {
        Vector { x: (self.x * f / SCALE as int) as i64, y: (self.y * f / SCALE as int) as i64 }
    }

    pub open spec fn dot_spec(self, o: Vector) -> int {
        (self.x * o.x + self.y * o.y) / SCALE as int
    }

    pub open spec fn det_spec(self, o: Vector) -> int {
        (self.x * o.y - self.y * o.x) / SCALE as int
    }

    pub open spec fn rot90_spec(self) -> Vector {
        Vector { x: (-self.y) as i64, y: self.x }
    }

    pub open spec fn rot270_spec(self) -> Vector {
        Vector { x: self.y, y: (-self.x) as i64 }
    }

    pub open spec fn flip_spec(self) -> Vector {
        Vector { x: (-self.x) as i64, y: (-self.y) as i64 }
    }

    pub open spec fn midpoint_spec(self, o: Vector) -> Vector {
        Vector { x: ((self.x + o.x) / 2) as i64, y: ((self.y + o.y) / 2) as i64 }
    }

    pub open spec fn norm_sq(self) -> int {
        self.x * self.x + self.y * self.y
    }

    pub open spec fn magnitude_spec(self) -> int {
        sqrt_floor(self.norm_sq())
    }

    pub open spec fn is_degenerate_spec(self) -> bool {
        self.magnitude_spec() < EPSILON
    }

    /// The boosted magnitude that `normalize` divides by.
    pub open spec fn boosted_magnitude(self) -> int {
        sqrt_floor(self.norm_sq() * NORM_BOOST * NORM_BOOST)
    }

    /// `self` stretched by `LIFT` when it is shorter than `LIFT_BELOW`, so that the rounding in
    /// `normalize` stays below a tick; the direction is the same.
    pub open spec fn lifted(self) -> Vector {
        if self.magnitude_spec() < LIFT_BELOW {
            Vector { x: (self.x * LIFT) as i64, y: (self.y * LIFT) as i64 }
        } else {
            self
        }
    }

    /// The unit vector along `self`, scaled by `SCALE`.
    pub open spec fn normalize_spec(self) -> Vector {
        self.lifted().normalize_raw_spec()
    }

    /// The unit vector along `self` by one boosted division, before any lifting.
    pub open spec fn normalize_raw_spec(self) -> Vector {
        let m = self.boosted_magnitude();
        Vector {
            x: ((self.x * NORM_BOOST) * SCALE / m) as i64,
            y: ((self.y * NORM_BOOST) * SCALE / m) as i64,
        }
    }

    pub open spec fn equivalent_spec(self, o: Vector) -> bool {
        near(self.x as int, o.x as int) && near(self.y as int, o.y as int)
    }

    pub open spec fn is_parallel_spec(self, o: Vector) -> bool {
        abs_int(self.det_spec(o)) < EPSILON
    }

    pub fn add(&self, o: &Vector) -> (r: Vector)
        requires
            self.within(COORD_MAX as int),
            o.within(COORD_MAX as int),
        ensures
            r == self.add_spec(*o),
    {
        Vector { x: self.x + o.x, y: self.y + o.y }
    }

    pub fn subtract(&self, o: &Vector) -> (r: Vector)
        requires
            self.within(COORD_MAX as int),
            o.within(COORD_MAX as int),
        ensures
            r == self.sub_spec(*o),
    {
        Vector { x: self.x - o.x, y: self.y - o.y }
    }

    /// Multiplies by the fixed-point factor `f` (`SCALE` is one).
    pub fn scale(&self, f: i64) -> (r: Vector)
        requires
            self.within(COORD_MAX as int),
            -COORD_MAX <= f <= COORD_MAX,
        ensures
            r == self.scale_spec(f as int),
    {
        assert(-COORD_MAX * COORD_MAX <= self.x * f <= COORD_MAX * COORD_MAX) by (nonlinear_arith)
            requires -COORD_MAX <= self.x <= COORD_MAX, -COORD_MAX <= f <= COORD_MAX;
        assert(-COORD_MAX * COORD_MAX <= self.y * f <= COORD_MAX * COORD_MAX) by (nonlinear_arith)
            requires -COORD_MAX <= self.y <= COORD_MAX, -COORD_MAX <= f <= COORD_MAX;
        let x: i128 = floor_div(self.x as i128 * f as i128, SCALE as i128);
        let y: i128 = floor_div(self.y as i128 * f as i128, SCALE as i128);
        proof {
            lemma_quotient_small(self.x * f, COORD_MAX * COORD_MAX);
            lemma_quotient_small(self.y * f, COORD_MAX * COORD_MAX);
        }
        Vector { x: x as i64, y: y as i64 }
    }

    pub fn dot(&self, o: &Vector) -> (r: i64)
        requires
            self.within(COORD_MAX as int),
            o.within(COORD_MAX as int),
        ensures
            r == self.dot_spec(*o),
    {
        proof { lemma_products(*self, *o); }
        let n: i128 = self.x as i128 * o.x as i128 + self.y as i128 * o.y as i128;
        proof { lemma_quotient_small(n as int, 2 * COORD_MAX * COORD_MAX); }
        floor_div(n, SCALE as i128) as i64
    }

    /// The two-dimensional cross product.
    pub fn determinant(&self, o: &Vector) -> (r: i64)
        requires
            self.within(COORD_MAX as int),
            o.within(COORD_MAX as int),
        ensures
            r == self.det_spec(*o),
    {
        proof { lemma_products(*self, *o); }
        let n: i128 = self.x as i128 * o.y as i128 - self.y as i128 * o.x as i128;
        proof { lemma_quotient_small(n as int, 2 * COORD_MAX * COORD_MAX); }
        floor_div(n, SCALE as i128) as i64
    }

    pub fn rotate90(&self) -> (r: Vector)
        requires
            self.within(COORD_MAX as int),
        ensures
            r == self.rot90_spec(),
    {
        Vector { x: -self.y, y: self.x }
    }

    pub fn rotate270(&self) -> (r: Vector)
        requires
            self.within(COORD_MAX as int),
        ensures
            r == self.rot270_spec(),
    {
        Vector { x: self.y, y: -self.x }
    }

    /// The vector pointing the opposite way.
    pub fn flip(&self) -> (r: Vector)
        requires
            self.within(COORD_MAX as int),
        ensures
            r == self.flip_spec(),
    {
        Vector { x: -self.x, y: -self.y }
    }

    pub fn midpoint(&self, o: &Vector) -> (r: Vector)
        requires
            self.within(COORD_MAX as int),
            o.within(COORD_MAX as int),
        ensures
            r == self.midpoint_spec(*o),
    {
        let x: i128 = floor_div(self.x as i128 + o.x as i128, 2);
        let y: i128 = floor_div(self.y as i128 + o.y as i128, 2);
        Vector { x: x as i64, y: y as i64 }
    }

    /// Length, rounded down to a whole tick.
    pub fn magnitude(&self) -> (r: i64)
        requires
            self.within(2 * COORD_MAX),
        ensures
            r == self.magnitude_spec(),
            is_sqrt_floor(self.norm_sq(), r as int),
            0 <= r <= 0x1000_0000_0000,
    {
        proof { lemma_norm_small(*self); }
        let n: i128 = self.x as i128 * self.x as i128 + self.y as i128 * self.y as i128;
        let r: u64 = isqrt(n as u128);
        proof { lemma_root_small(n as int, r as int); }
        r as i64
    }

    /// Shorter than the tolerance, so that it has no direction to speak of.
    pub fn is_degenerate(&self) -> (r: bool)
        requires
            self.within(2 * COORD_MAX),
        ensures
            r == self.is_degenerate_spec(),
    {
        self.magnitude() < EPSILON
    }

    /// The unit vector along `self`, scaled by `SCALE`: one unit long within two ticks.
    pub fn normalize(&self) -> (r: Vector)
        requires
            self.within(2 * COORD_MAX),
            !self.is_degenerate_spec(),
        ensures
            r == self.normalize_spec(),
            r.within(SCALE as int),
            is_unit(r),
    {
        let mag: i64 = self.magnitude();
        proof { self.lemma_lifted(); }
        let w: Vector = if mag < LIFT_BELOW { Vector { x: self.x * LIFT, y: self.y * LIFT } } else { *self };
        proof { lemma_normalize_unit(w); }
        w.normalize_raw()
    }

    fn normalize_raw(&self) -> (r: Vector)
        requires
            self.within(2 * COORD_MAX),
            !self.is_degenerate_spec(),
        ensures
            r == self.normalize_raw_spec(),
            r.within(SCALE as int),
    {
        proof { lemma_norm_small(*self); }
        let n: i128 = self.x as i128 * self.x as i128 + self.y as i128 * self.y as i128;
        assert(n * NORM_BOOST * NORM_BOOST <= 0x80_0000_0000_0000_0000_0000 * NORM_BOOST * NORM_BOOST) by (nonlinear_arith)
            requires 0 <= n <= 0x80_0000_0000_0000_0000_0000;
        let boosted: i128 = n * NORM_BOOST as i128 * NORM_BOOST as i128;
        let m: u64 = isqrt(boosted as u128);
        proof {
            self.lemma_normalize_bounds();
        }
        let m: i128 = m as i128;
        let x: i128 = floor_div(self.x as i128 * NORM_BOOST as i128 * SCALE as i128, m);
        let y: i128 = floor_div(self.y as i128 * NORM_BOOST as i128 * SCALE as i128, m);
        Vector { x: x as i64, y: y as i64 }
    }

    /// The divisor of `normalize` is positive and large enough to keep each component
    /// within one unit.
    pub proof fn lemma_normalize_bounds(self)
        requires
            self.within(2 * COORD_MAX),
            !self.is_degenerate_spec(),
        ensures
            self.boosted_magnitude() > 0,
            -self.boosted_magnitude() <= self.x * NORM_BOOST <= self.boosted_magnitude(),
            -self.boosted_magnitude() <= self.y * NORM_BOOST <= self.boosted_magnitude(),
            self.normalize_raw_spec().within(SCALE as int),
            self.boosted_magnitude() <= 0x1000_0000_0000_0000,
            -SCALE <= (self.x * NORM_BOOST) * SCALE / self.boosted_magnitude() <= SCALE,
            -SCALE <= (self.y * NORM_BOOST) * SCALE / self.boosted_magnitude() <= SCALE,
    {
        let n = self.norm_sq();
        let k = NORM_BOOST as int;
        let m = self.boosted_magnitude();
        lemma_norm_small(self);
        assert(n >= 0) by (nonlinear_arith) requires n == self.x * self.x + self.y * self.y;
        assert(n * k * k >= 0) by (nonlinear_arith) requires n >= 0, k > 0;
        lemma_sqrt_exists(n * k * k);
        lemma_sqrt_exists(n);
        let r = sqrt_floor(n);
        assert(is_sqrt_floor(n, r));
        assert(r >= EPSILON);
        assert((r * k) * (r * k) <= n * k * k) by (nonlinear_arith)
            requires r * r <= n, k > 0;
        lemma_sqrt_floor_ge(r * k, n * k * k);
        assert(m > 0) by (nonlinear_arith) requires m >= r * k, r >= 10, k > 0;
        let ax = abs_int(self.x as int);
        let ay = abs_int(self.y as int);
        assert(ax * ax == self.x * self.x) by (nonlinear_arith) requires ax == abs_int(self.x as int);
        assert(ay * ay == self.y * self.y) by (nonlinear_arith) requires ay == abs_int(self.y as int);
        assert(self.x * self.x >= 0 && self.y * self.y >= 0) by (nonlinear_arith);
        assert((ax * k) * (ax * k) <= n * k * k) by (nonlinear_arith)
            requires n == self.x * self.x + self.y * self.y, ax * ax == self.x * self.x, k > 0, self.y * self.y >= 0;
        assert((ay * k) * (ay * k) <= n * k * k) by (nonlinear_arith)
            requires n == self.x * self.x + self.y * self.y, ay * ay == self.y * self.y, k > 0, self.x * self.x >= 0;
        assert(ax * k >= 0 && ay * k >= 0) by (nonlinear_arith) requires ax >= 0, ay >= 0, k > 0;
        lemma_sqrt_floor_ge(ax * k, n * k * k);
        lemma_sqrt_floor_ge(ay * k, n * k * k);
        assert(-m <= self.x * k <= m) by (nonlinear_arith)
            requires ax * k <= m, ax == abs_int(self.x as int), k > 0;
        assert(-m <= self.y * k <= m) by (nonlinear_arith)
            requires ay * k <= m, ay == abs_int(self.y as int), k > 0;
        lemma_unit_quotient(self.x * k, m);
        lemma_unit_quotient(self.y * k, m);
        assert(self.x * NORM_BOOST * SCALE == (self.x * k) * SCALE);
        assert(self.y * NORM_BOOST * SCALE == (self.y * k) * SCALE);
        assert(is_sqrt_floor(n * k * k, m));
        assert(n * k * k <= 0x80_0000_0000_0000_0000_0000_0000_0000) by (nonlinear_arith)
            requires n <= 0x80_0000_0000_0000_0000_0000, k == 65536;
        if m > 0x1000_0000_0000_0000 {
            assert(m * m > 0x1000_0000_0000_0000 * 0x1000_0000_0000_0000) by (nonlinear_arith)
                requires m > 0x1000_0000_0000_0000;
        }
    }

    pub fn distance_to(&self, o: &Vector) -> (r: i64)
        requires
            self.within(COORD_MAX as int),
            o.within(COORD_MAX as int),
        ensures
            r == self.sub_spec(*o).magnitude_spec(),
            0 <= r <= 0x1000_0000_0000,
    {
        self.subtract(o).magnitude()
    }

    /// Equal within the shared tolerance, component by component.
    pub fn equivalent(&self, o: &Vector) -> (r: bool)
        ensures
            r == self.equivalent_spec(*o),
    {
        let dx: i128 = self.x as i128 - o.x as i128;
        let dy: i128 = self.y as i128 - o.y as i128;
        -(EPSILON as i128) < dx && dx < EPSILON as i128 && -(EPSILON as i128) < dy && dy < EPSILON as i128
    }

    pub fn is_parallel(&self, o: &Vector) -> (r: bool)
        requires
            self.within(COORD_MAX as int),
            o.within(COORD_MAX as int),
        ensures
            r == self.is_parallel_spec(*o),
    {
        let d: i64 = self.determinant(o);
        -EPSILON < d && d < EPSILON
    }
}

proof fn lemma_products(a: Vector, b: Vector)
    requires
        a.within(COORD_MAX as int),
        b.within(COORD_MAX as int),
    ensures
        -COORD_MAX * COORD_MAX <= a.x * b.x <= COORD_MAX * COORD_MAX,
        -COORD_MAX * COORD_MAX <= a.y * b.y <= COORD_MAX * COORD_MAX,
        -COORD_MAX * COORD_MAX <= a.x * b.y <= COORD_MAX * COORD_MAX,
        -COORD_MAX * COORD_MAX <= a.y * b.x <= COORD_MAX * COORD_MAX,
{
    let c = COORD_MAX as int;
    assert(-c * c <= a.x * b.x <= c * c) by (nonlinear_arith) requires -c <= a.x <= c, -c <= b.x <= c;
    assert(-c * c <= a.y * b.y <= c * c) by (nonlinear_arith) requires -c <= a.y <= c, -c <= b.y <= c;
    assert(-c * c <= a.x * b.y <= c * c) by (nonlinear_arith) requires -c <= a.x <= c, -c <= b.y <= c;
    assert(-c * c <= a.y * b.x <= c * c) by (nonlinear_arith) requires -c <= a.y <= c, -c <= b.x <= c;
}

proof fn lemma_norm_small(v: Vector)
    requires
        v.within(2 * COORD_MAX),
    ensures
        0 <= v.x * v.x <= 0x40_0000_0000_0000_0000_0000,
        0 <= v.y * v.y <= 0x40_0000_0000_0000_0000_0000,
        0 <= v.norm_sq() <= 0x80_0000_0000_0000_0000_0000,
{
    let c = 2 * COORD_MAX;
    assert(c * c == 0x40_0000_0000_0000_0000_0000) by (nonlinear_arith) requires c == 0x800_0000_0000;
    assert(0 <= v.x * v.x <= c * c) by (nonlinear_arith) requires -c <= v.x <= c;
    assert(0 <= v.y * v.y <= c * c) by (nonlinear_arith) requires -c <= v.y <= c;
}

proof fn lemma_root_small(n: int, r: int)
    requires
        0 <= n <= 0x80_0000_0000_0000_0000_0000,
        is_sqrt_floor(n, r),
    ensures
        r <= 0x1000_0000_0000,
{
    if r > 0x1000_0000_0000 {
        assert(r * r > 0x1000_0000_0000 * 0x1000_0000_0000) by (nonlinear_arith)
            requires r > 0x1000_0000_0000;
    }
}

/// A quotient by `SCALE` of a value bounded by `b` fits an `i64`.
proof fn lemma_quotient_small(n: int, b: int)
    requires
        -b <= n <= b,
        b <= 2 * COORD_MAX * COORD_MAX,
    ensures
        -0x100_0000_0000_0000 <= n / SCALE as int <= 0x100_0000_0000_0000,
{
    vstd::arithmetic::div_mod::lemma_div_is_ordered(n, 2 * COORD_MAX * COORD_MAX, SCALE as int);
    vstd::arithmetic::div_mod::lemma_div_is_ordered(-2 * COORD_MAX * COORD_MAX, n, SCALE as int);
}

impl Line {
    /// A unit normal (within the tolerance) and an offset that the operations accept.
    pub open spec fn wf(self) -> bool {
        self.u.within(SCALE as int) && is_unit(self.u) && -COORD_MAX <= self.d <= COORD_MAX
    }

    /// The same line, written with normal and offset negated.
    pub open spec fn negated_spec(self) -> Line {
        Line { u: self.u.flip_spec(), d: (-self.d) as i64 }
    }

    /// The same line within the tolerance; `(u, d)` and `(-u, -d)` name one line.
    pub open spec fn equivalent_spec(self, o: Line) -> bool {
        (near(self.u.x as int, o.u.x as int) && near(self.u.y as int, o.u.y as int)
            && near(self.d as int, o.d as int))
        || (near(self.u.x as int, -o.u.x) && near(self.u.y as int, -o.u.y)
            && near(self.d as int, -o.d))
    }

    /// The normals' cross product, at scale `SCALE * SCALE`.
    pub open spec fn cross(self, o: Line) -> int {
        self.u.x * o.u.y - self.u.y * o.u.x
    }

    /// The lines cross at a single point (their normals are not parallel within the tolerance).
    pub open spec fn crosses_spec(self, o: Line) -> bool {
        abs_int(self.cross(o)) >= CROSS_TOL
    }

    /// The crossing point, before checking that it fits the coordinate range.
    pub open spec fn crossing_point(self, o: Line) -> (int, int) {
        let det = self.cross(o);
        let nx = (self.d * o.u.y - o.d * self.u.y) * SCALE;
        let ny = (self.u.x * o.d - o.u.x * self.d) * SCALE;
        if det > 0 { (nx / det, ny / det) } else { ((-nx) / (-det), (-ny) / (-det)) }
    }

    /// The crossing point, when the lines cross and it is in range.
    pub open spec fn intersect_spec(self, o: Line) -> Option<Vector> {
        let (x, y) = self.crossing_point(o);
        if self.crosses_spec(o) && -COORD_MAX <= x <= COORD_MAX && -COORD_MAX <= y <= COORD_MAX {
            Some(Vector { x: x as i64, y: y as i64 })
        } else {
            None
        }
    }

    /// Whether the line meets `wf`.
    pub fn is_wf(&self) -> (r: bool)
        ensures
            r == self.wf(),
    {
        if !(-SCALE <= self.u.x && self.u.x <= SCALE && -SCALE <= self.u.y && self.u.y <= SCALE
            && -COORD_MAX <= self.d && self.d <= COORD_MAX) {
            return false;
        }
        let ghost s: int = SCALE as int;
        assert(0 <= self.u.x * self.u.x <= s * s && 0 <= self.u.y * self.u.y <= s * s) by (nonlinear_arith)
            requires -s <= self.u.x <= s, -s <= self.u.y <= s;
        let n: i128 = self.u.x as i128 * self.u.x as i128 + self.u.y as i128 * self.u.y as i128;
        let lo: i128 = (SCALE - EPSILON) as i128 * (SCALE - EPSILON) as i128;
        let hi: i128 = (SCALE + EPSILON) as i128 * (SCALE + EPSILON) as i128;
        lo <= n && n <= hi
    }

    /// The normals are not parallel within the tolerance.
    pub fn crosses(&self, o: &Line) -> (r: bool)
        requires
            self.wf(),
            o.wf(),
        ensures
            r == self.crosses_spec(*o),
    {
        proof { lemma_line_products(*self, *o); }
        let det: i128 = self.u.x as i128 * o.u.y as i128 - self.u.y as i128 * o.u.x as i128;
        let tol: i128 = CROSS_TOL as i128;
        !(-tol < det && det < tol)
    }

    pub fn equivalent(&self, o: &Line) -> (r: bool)
        ensures
            r == self.equivalent_spec(*o),
    {
        let e: i128 = EPSILON as i128;
        let ux: i128 = self.u.x as i128 - o.u.x as i128;
        let uy: i128 = self.u.y as i128 - o.u.y as i128;
        let dd: i128 = self.d as i128 - o.d as i128;
        let vx: i128 = self.u.x as i128 + o.u.x as i128;
        let vy: i128 = self.u.y as i128 + o.u.y as i128;
        let ee: i128 = self.d as i128 + o.d as i128;
        (-e < ux && ux < e && -e < uy && uy < e && -e < dd && dd < e)
            || (-e < vx && vx < e && -e < vy && vy < e && -e < ee && ee < e)
    }

    /// The point on both lines; `None` when they are parallel within the tolerance, or
    /// when the point lies beyond the coordinate range.
    pub fn intersect(&self, o: &Line) -> (r: Option<Vector>)
        requires
            self.wf(),
            o.wf(),
        ensures
            r == self.intersect_spec(*o),
    {
        proof { lemma_line_products(*self, *o); }
        let det: i128 = self.u.x as i128 * o.u.y as i128 - self.u.y as i128 * o.u.x as i128;
        let tol: i128 = CROSS_TOL as i128;
        if -tol < det && det < tol {
            return None;
        }
        let nx: i128 = (self.d as i128 * o.u.y as i128 - o.d as i128 * self.u.y as i128) * SCALE as i128;
        let ny: i128 = (self.u.x as i128 * o.d as i128 - o.u.x as i128 * self.d as i128) * SCALE as i128;
        let (x, y) = if det > 0 {
            (floor_div(nx, det), floor_div(ny, det))
        } else {
            (floor_div(-nx, -det), floor_div(-ny, -det))
        };
        if -(COORD_MAX as i128) <= x && x <= COORD_MAX as i128 && -(COORD_MAX as i128) <= y
            && y <= COORD_MAX as i128 {
            Some(Vector { x: x as i64, y: y as i64 })
        } else {
            None
        }
    }
}

proof fn lemma_line_products(a: Line, b: Line)
    requires
        a.wf(),
        b.wf(),
    ensures
        -0x100_0000_0000_0000_0000 <= a.cross(b) <= 0x100_0000_0000_0000_0000,
        (a.d * b.u.y - b.d * a.u.y) * SCALE <= 0x1000_0000_0000_0000_0000_0000_0000_0000,
        -0x1000_0000_0000_0000_0000_0000_0000_0000 <= (a.d * b.u.y - b.d * a.u.y) * SCALE,
        -0x1000_0000_0000_0000_0000_0000_0000_0000 <= (a.u.x * b.d - b.u.x * a.d) * SCALE <= 0x1000_0000_0000_0000_0000_0000_0000_0000,
        -0x1_0000_0000_0000_0000_0000 <= a.d * b.u.y <= 0x1_0000_0000_0000_0000_0000,
        -0x1_0000_0000_0000_0000_0000 <= b.d * a.u.y <= 0x1_0000_0000_0000_0000_0000,
        -0x1_0000_0000_0000_0000_0000 <= a.u.x * b.d <= 0x1_0000_0000_0000_0000_0000,
        -0x1_0000_0000_0000_0000_0000 <= b.u.x * a.d <= 0x1_0000_0000_0000_0000_0000,
        -0x100_0000_0000_0000_0000 <= a.u.x * b.u.y <= 0x100_0000_0000_0000_0000,
        -0x100_0000_0000_0000_0000 <= a.u.y * b.u.x <= 0x100_0000_0000_0000_0000,
{
    let s = SCALE as int;
    let c = COORD_MAX as int;
    let big = 0x1_0000_0000_0000_0000_0000int;
    assert(s * s <= 0x100_0000_0000_0000_0000);
    assert(c * s <= big) by (nonlinear_arith) requires c == 0x400_0000_0000, s == 1_000_000_000, big == 0x1_0000_0000_0000_0000_0000;
    assert(-s * s <= a.u.x * b.u.y <= s * s) by (nonlinear_arith) requires -s <= a.u.x <= s, -s <= b.u.y <= s;
    assert(-s * s <= a.u.y * b.u.x <= s * s) by (nonlinear_arith) requires -s <= a.u.y <= s, -s <= b.u.x <= s;
    assert(-c * s <= a.d * b.u.y <= c * s) by (nonlinear_arith) requires -c <= a.d <= c, -s <= b.u.y <= s;
    assert(-c * s <= b.d * a.u.y <= c * s) by (nonlinear_arith) requires -c <= b.d <= c, -s <= a.u.y <= s;
    assert(-c * s <= a.u.x * b.d <= c * s) by (nonlinear_arith) requires -c <= b.d <= c, -s <= a.u.x <= s;
    assert(-c * s <= b.u.x * a.d <= c * s) by (nonlinear_arith) requires -c <= a.d <= c, -s <= b.u.x <= s;
    let p = a.d * b.u.y - b.d * a.u.y;
    let q = a.u.x * b.d - b.u.x * a.d;
    assert(-2 * big * s <= p * s <= 2 * big * s) by (nonlinear_arith) requires -2 * big <= p <= 2 * big, s > 0;
    assert(-2 * big * s <= q * s <= 2 * big * s) by (nonlinear_arith) requires -2 * big <= q <= 2 * big, s > 0;
}

/// A dot product with a unit normal is at most twice the largest component.
pub proof fn lemma_dot_unit(p: Vector, u: Vector)
    requires
        p.within(COORD_MAX as int),
        u.within(SCALE as int),
    ensures
        -2 * COORD_MAX <= p.dot_spec(u) <= 2 * COORD_MAX,
{
    let c = COORD_MAX as int;
    let s = SCALE as int;
    assert(-c * s <= p.x * u.x <= c * s) by (nonlinear_arith) requires -c <= p.x <= c, -s <= u.x <= s;
    assert(-c * s <= p.y * u.y <= c * s) by (nonlinear_arith) requires -c <= p.y <= c, -s <= u.y <= s;
    let n = p.x * u.x + p.y * u.y;
    vstd::arithmetic::div_mod::lemma_div_is_ordered(n, (2 * c) * s, s);
    vstd::arithmetic::div_mod::lemma_div_is_ordered((-2 * c) * s, n, s);
    vstd::arithmetic::div_mod::lemma_div_multiples_vanish(2 * c, s);
    vstd::arithmetic::div_mod::lemma_div_multiples_vanish(-2 * c, s);
}

/// Point equivalence does not depend on the order of its arguments.
pub proof fn lemma_vector_equivalence_symmetric(a: Vector, b: Vector)
    ensures
        a.equivalent_spec(b) == b.equivalent_spec(a),
{
}

/// Line equivalence does not depend on the order of its arguments, including the case of a
/// line written with its normal and offset both negated.
pub proof fn lemma_line_equivalence_symmetric(a: Line, b: Line)
    ensures
        a.equivalent_spec(b) == b.equivalent_spec(a),
        a.equivalent_spec(b.negated_spec()) == b.negated_spec().equivalent_spec(a),
{
}

/// `(m * q)^2` against `v^2` when `q` is `v / m` rounded down.
proof fn lemma_floor_square(v: int, m: int, q: int)
    requires
        m > 0,
        q == v / m,
    ensures
        (m * q) * (m * q) <= v * v + 2 * m * abs_int(v) + m * m,
        (m * q) * (m * q) >= v * v - 2 * m * abs_int(v),
{
    vstd::arithmetic::div_mod::lemma_fundamental_div_mod(v, m);
    let r = v % m;
    assert(m * q == v - r);
    let a = abs_int(v);
    if v >= 0 {
        assert(q >= 0) by {
            vstd::arithmetic::div_mod::lemma_div_pos_is_pos(v, m);
        }
        assert((v - r) * (v - r) <= v * v) by (nonlinear_arith)
            requires 0 <= r <= v;
        if v >= m {
            assert((v - r) * (v - r) >= v * v - 2 * m * v) by (nonlinear_arith)
                requires 0 <= r < m, m <= v;
        } else {
            assert(v - r >= 0);
            assert(v * v - 2 * m * v <= 0) by (nonlinear_arith)
                requires 0 <= v < m;
            assert((v - r) * (v - r) >= 0) by (nonlinear_arith);
        }
        assert(v * v <= v * v + 2 * m * a + m * m) by (nonlinear_arith)
            requires a >= 0, m > 0;
    } else {
        assert((v - r) * (v - r) >= v * v) by (nonlinear_arith)
            requires v < 0, 0 <= r;
        assert((v - r) * (v - r) <= v * v + 2 * m * a + m * m) by (nonlinear_arith)
            requires v < 0, 0 <= r < m, a == -v;
        assert(v * v - 2 * m * a <= v * v) by (nonlinear_arith)
            requires a >= 0, m > 0;
    }
}

/// One boosted division gives a vector one unit long within two ticks, once its input is at
/// least `2^20` ticks long.
pub proof fn lemma_normalize_unit(v: Vector)
    requires
        v.within(2 * COORD_MAX),
        v.magnitude_spec() >= 0x10_0000,
    ensures
        (SCALE - 2) * (SCALE - 2) <= v.normalize_raw_spec().norm_sq() <= (SCALE + 2) * (SCALE + 2),
{
    let k = NORM_BOOST as int;
    let s = SCALE as int;
    let n = v.norm_sq();
    let big_n = n * k * k;
    let m = v.boosted_magnitude();
    let mag = v.magnitude_spec();
    lemma_norm_small(v);
    v.lemma_normalize_bounds();
    assert(n >= 0) by (nonlinear_arith) requires n == v.x * v.x + v.y * v.y;
    assert(big_n >= 0) by (nonlinear_arith) requires n >= 0, k > 0, big_n == n * k * k;
    lemma_sqrt_exists(n);
    lemma_sqrt_exists(big_n);
    assert(is_sqrt_floor(n, mag));
    assert(is_sqrt_floor(big_n, m));
    assert((mag * k) * (mag * k) <= big_n) by (nonlinear_arith)
        requires mag * mag <= n, k > 0, big_n == n * k * k;
    assert(mag * k >= 0) by (nonlinear_arith) requires mag >= 0, k > 0;
    lemma_sqrt_floor_ge(mag * k, big_n);
    assert(m >= 0x10_0000_0000) by (nonlinear_arith)
        requires m >= mag * k, mag >= 0x10_0000, k == 65536;
    let x = v.x * k * s;
    let y = v.y * k * s;
    let c = k * k * (s * s);
    assert(x * x == (v.x * v.x) * c) by (nonlinear_arith) requires x == v.x * k * s, c == k * k * (s * s);
    assert(y * y == (v.y * v.y) * c) by (nonlinear_arith) requires y == v.y * k * s, c == k * k * (s * s);
    assert(big_n * (s * s) == n * c) by (nonlinear_arith)
        requires big_n == n * k * k, c == k * k * (s * s);
    assert(x * x + y * y == n * c) by (nonlinear_arith)
        requires x * x == (v.x * v.x) * c, y * y == (v.y * v.y) * c, n == v.x * v.x + v.y * v.y;
    let qx = x / m;
    let qy = y / m;
    let u = v.normalize_raw_spec();
    assert(u.x == qx && u.y == qy);
    lemma_floor_square(x, m, qx);
    lemma_floor_square(y, m, qy);
    let ax = abs_int(x);
    let ay = abs_int(y);
    assert(ax * ax == x * x && ay * ay == y * y) by (nonlinear_arith)
        requires ax == abs_int(x), ay == abs_int(y);
    // |x| + |y| < 3 (m + 1) s / 2
    assert(big_n < (m + 1) * (m + 1));
    assert((2 * (ax + ay)) * (2 * (ax + ay)) <= 8 * (x * x + y * y)) by (nonlinear_arith)
        requires ax * ax == x * x, ay * ay == y * y, ax >= 0, ay >= 0;
    assert(8 * (big_n * (s * s)) < (3 * (m + 1) * s) * (3 * (m + 1) * s)) by (nonlinear_arith)
        requires big_n < (m + 1) * (m + 1), s > 0, big_n >= 0, m >= 0;
    assert(2 * (ax + ay) < 3 * (m + 1) * s) by (nonlinear_arith)
        requires (2 * (ax + ay)) * (2 * (ax + ay)) < (3 * (m + 1) * s) * (3 * (m + 1) * s),
            ax + ay >= 0, m >= 0, s > 0;
    let t = qx * qx + qy * qy;
    assert(m * m * t == (m * qx) * (m * qx) + (m * qy) * (m * qy)) by (nonlinear_arith)
        requires t == qx * qx + qy * qy;
    assert(2 * m * (ax + ay) == 2 * m * ax + 2 * m * ay) by (nonlinear_arith);
    let px = (m * qx) * (m * qx);
    let py = (m * qy) * (m * qy);
    assert(px <= x * x + 2 * m * ax + m * m);
    assert(py <= y * y + 2 * m * ay + m * m);
    assert(m * m * t == px + py);
    assert(m * m * t <= x * x + y * y + 2 * m * (ax + ay) + 2 * m * m) by (nonlinear_arith)
        requires
            px <= x * x + 2 * m * ax + m * m,
            py <= y * y + 2 * m * ay + m * m,
            m * m * t == px + py;
    assert(m * m * t >= x * x + y * y - 2 * m * (ax + ay));
    // upper bound
    assert(big_n <= m * m + 2 * m) by (nonlinear_arith) requires big_n < (m + 1) * (m + 1);
    assert(m * m * t <= m * m * ((s + 2) * (s + 2))) by (nonlinear_arith)
        requires
            m * m * t <= x * x + y * y + 2 * m * (ax + ay) + 2 * m * m,
            x * x + y * y == big_n * (s * s),
            big_n <= m * m + 2 * m,
            2 * (ax + ay) < 3 * (m + 1) * s,
            m >= 0x10_0000_0000,
            s == 1_000_000_000;
    // lower bound
    assert(big_n >= m * m);
    assert(m * m * t >= m * m * ((s - 2) * (s - 2))) by (nonlinear_arith)
        requires
            m * m * t >= x * x + y * y - 2 * m * (ax + ay),
            x * x + y * y == big_n * (s * s),
            big_n >= m * m,
            2 * (ax + ay) < 3 * (m + 1) * s,
            m >= 0x10_0000_0000,
            s == 1_000_000_000;
    assert(m * m > 0) by (nonlinear_arith) requires m > 0;
    assert(t <= (s + 2) * (s + 2)) by (nonlinear_arith)
        requires m * m * t <= m * m * ((s + 2) * (s + 2)), m * m > 0;
    assert(t >= (s - 2) * (s - 2)) by (nonlinear_arith)
        requires m * m * t >= m * m * ((s - 2) * (s - 2)), m * m > 0;
}

/// Turning a normal by a quarter keeps its length, so the folds of axioms 4 and 7 keep the
/// unit normal of the line they start from.
pub proof fn lemma_rotate_keeps_length(v: Vector)
    requires
        v.within(COORD_MAX as int),
    ensures
        v.rot90_spec().norm_sq() == v.norm_sq(),
{
    assert((-v.y) * (-v.y) == v.y * v.y) by (nonlinear_arith);
}

impl Vector {
    /// The lifted vector is the original times `1` or `LIFT`, in range, and at least
    /// `LIFT_BELOW` ticks long.
    pub proof fn lemma_lifted(self)
        requires
            self.within(2 * COORD_MAX),
            !self.is_degenerate_spec(),
        ensures
            self.lifted().within(2 * COORD_MAX),
            self.lifted().magnitude_spec() >= LIFT_BELOW,
            !self.lifted().is_degenerate_spec(),
            self.magnitude_spec() < LIFT_BELOW ==> self.lifted().x == self.x * LIFT && self.lifted().y == self.y * LIFT,
            self.magnitude_spec() >= LIFT_BELOW ==> self.lifted() == self,
    {
        let n = self.norm_sq();
        let mag = self.magnitude_spec();
        lemma_norm_small(self);
        lemma_sqrt_exists(n);
        assert(is_sqrt_floor(n, mag));
        if mag < LIFT_BELOW {
            let c = LIFT as int;
            assert(self.x * self.x <= n && self.y * self.y <= n) by (nonlinear_arith)
                requires n == self.x * self.x + self.y * self.y;
            assert(n < 0x100_0000_0000) by (nonlinear_arith)
                requires n < (mag + 1) * (mag + 1), 0 <= mag < 0x10_0000;
            assert(-0x10_0000 < self.x < 0x10_0000) by (nonlinear_arith)
                requires self.x * self.x < 0x100_0000_0000;
            assert(-0x10_0000 < self.y < 0x10_0000) by (nonlinear_arith)
                requires self.y * self.y < 0x100_0000_0000;
            let w = self.lifted();
            assert(w.x == self.x * c && w.y == self.y * c);
            assert(w.norm_sq() == n * (c * c)) by (nonlinear_arith)
                requires w.x == self.x * c, w.y == self.y * c, n == self.x * self.x + self.y * self.y;
            assert((mag * c) * (mag * c) <= n * (c * c)) by (nonlinear_arith)
                requires mag * mag <= n, c > 0;
            assert(mag * c >= 0) by (nonlinear_arith) requires mag >= 0, c > 0;
            lemma_sqrt_floor_ge(mag * c, w.norm_sq());
            assert(mag * c >= LIFT_BELOW) by (nonlinear_arith) requires mag >= 10, c == 0x20_0000;
        }
    }
}

/// Every normalized vector is one unit long within two ticks.
pub proof fn lemma_normalize_is_unit(v: Vector)
    requires
        v.within(2 * COORD_MAX),
        !v.is_degenerate_spec(),
    ensures
        (SCALE - 2) * (SCALE - 2) <= v.normalize_spec().norm_sq() <= (SCALE + 2) * (SCALE + 2),
        is_unit(v.normalize_spec()),
{
    v.lemma_lifted();
    lemma_normalize_unit(v.lifted());
}

} // verus!
