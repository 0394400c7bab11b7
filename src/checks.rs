//! A self-check over known values of the vector operations, line equivalence and the first
//! two axioms.
use vstd::prelude::*;
use crate::primitives::{Vector, Line, near, lemma_sqrt_exists};
use crate::arith::{sqrt_floor, is_sqrt_floor, lemma_sqrt_floor_unique, SCALE};
use crate::axioms::{axiom1, axiom2, axiom1_spec, axiom2_spec};

verus! {

fn close(a: i64, b: i64) -> (r: bool)
    ensures
        r == near(a as int, b as int),
{
    let d: i128 = a as i128 - b as i128;
    -10 < d && d < 10
}

/// The sample point (2, 2).
pub open spec fn sample_u() -> Vector {
    Vector { x: 2_000_000_000, y: 2_000_000_000 }
}

/// The sample point (1.2, -0.8).
pub open spec fn sample_v() -> Vector {
    Vector { x: 1_200_000_000, y: -800_000_000i64 }
}

/// The vector operations give their known values on the samples.
pub open spec fn vector_checks() -> bool {
    let u = sample_u();
    let v = sample_v();
    let n = u.normalize_spec();
    &&& near(u.magnitude_spec(), 2_828_427_124)
    &&& near(n.x as int, 707_106_781) && near(n.y as int, 707_106_781)
    &&& n.rot90_spec().x == -n.y && n.rot90_spec().y == n.x
    &&& n.rot270_spec().x == n.y && n.rot270_spec().y == -n.x
    &&& v.flip_spec().x == -1_200_000_000 && v.flip_spec().y == 800_000_000
    &&& u.dot_spec(v) == 800_000_000
    &&& v.det_spec(u) == 4_000_000_000
    &&& !u.is_degenerate_spec()
    &&& !u.is_parallel_spec(v)
    &&& !u.equivalent_spec(v)
}

/// The line x = 1.
pub open spec fn line_l() -> Line {
    Line { u: Vector { x: 1_000_000_000, y: 0 }, d: 1_000_000_000 }
}

/// A line at 45 degrees that meets `line_l` at (1, 1 + sqrt(2) / 2).
pub open spec fn line_m() -> Line {
    Line { u: Vector { x: -707_106_781i64, y: 707_106_781 }, d: 500_000_000 }
}

/// The line x + y = 1, with its unit normal.
pub open spec fn line_a() -> Line {
    Line { u: Vector { x: 707_106_781, y: 707_106_781 }, d: 707_106_781 }
}

/// The line x = 1/2.
pub open spec fn line_b() -> Line {
    Line { u: Vector { x: 1_000_000_000, y: 0 }, d: 500_000_000 }
}

/// Intersection and equivalence give their known values on the sample lines.
pub open spec fn line_checks() -> bool {
    &&& match line_l().intersect_spec(line_m()) {
        Some(p) => near(p.x as int, 1_000_000_000) && near(p.y as int, 1_707_106_781),
        None => false,
    }
    &&& !line_a().equivalent_spec(line_b())
    &&& !line_b().equivalent_spec(line_a())
}

/// Axioms 1 and 2 give their known values on the sample points.
pub open spec fn axiom_checks() -> bool {
    &&& match axiom1_spec(sample_u(), sample_v()) {
        Some(l) => near(l.u.x as int, 961_523_947) && near(l.u.y as int, -274_721_127)
            && near(l.d as int, 1_373_605_639),
        None => false,
    }
    &&& match axiom2_spec(sample_u(), sample_v()) {
        Some(l) => near(l.u.x as int, -274_721_127) && near(l.u.y as int, -961_523_947)
            && near(l.d as int, -1_016_468_173),
        None => false,
    }
}

/// Runs the vector, line and axiom checks on their known values; true when all hold.
pub fn run_tests() -> (r: bool)
    ensures
        r == (vector_checks() && line_checks() && axiom_checks()),
        r,
{
    let u: Vector = Vector { x: 2_000_000_000, y: 2_000_000_000 };
    let v: Vector = Vector { x: 1_200_000_000, y: -800_000_000 };
    proof { lemma_checks_hold(); }
    if u.is_degenerate() {
        return false;
    }
    let n: Vector = u.normalize();
    let r90: Vector = n.rotate90();
    let r270: Vector = n.rotate270();
    let f: Vector = v.flip();
    let vector_ok: bool = close(u.magnitude(), 2_828_427_124)
        && close(n.x, 707_106_781) && close(n.y, 707_106_781)
        && r90.x == -n.y && r90.y == n.x
        && r270.x == n.y && r270.y == -n.x
        && f.x == -1_200_000_000 && f.y == 800_000_000
        && u.dot(&v) == 800_000_000
        && v.determinant(&u) == 4_000_000_000
        && !u.is_parallel(&v)
        && !u.equivalent(&v);
    let l: Line = Line { u: Vector { x: 1_000_000_000, y: 0 }, d: 1_000_000_000 };
    let m: Line = Line { u: Vector { x: -707_106_781, y: 707_106_781 }, d: 500_000_000 };
    let a: Line = Line { u: Vector { x: 707_106_781, y: 707_106_781 }, d: 707_106_781 };
    let b: Line = Line { u: Vector { x: 1_000_000_000, y: 0 }, d: 500_000_000 };
    let crossing_ok: bool = match l.intersect(&m) {
        Some(p) => close(p.x, 1_000_000_000) && close(p.y, 1_707_106_781),
        None => false,
    };
    let line_ok: bool = crossing_ok && !a.equivalent(&b) && !b.equivalent(&a);
    let ok1: bool = match axiom1(&u, &v) {
        Some(k) => close(k.u.x, 961_523_947) && close(k.u.y, -274_721_127) && close(k.d, 1_373_605_639),
        None => false,
    };
    let ok2: bool = match axiom2(&u, &v) {
        Some(k) => close(k.u.x, -274_721_127) && close(k.u.y, -961_523_947) && close(k.d, -1_016_468_173),
        None => false,
    };
    proof { lemma_checks_hold(); }
    vector_ok && line_ok && ok1 && ok2
}

proof fn lemma_sqrt_is(n: int, r: int)
    requires
        0 <= r,
        r * r <= n,
        n < (r + 1) * (r + 1),
    ensures
        sqrt_floor(n) == r,
{
    lemma_sqrt_exists(n);
    let c = choose|c: int| #[trigger] is_sqrt_floor(n, c);
    lemma_sqrt_floor_unique(n, r, c);
}

/// The self-check holds: `run_tests` returns `true`.
pub proof fn lemma_checks_hold()
    ensures
        vector_checks(),
        line_checks(),
        axiom_checks(),
{
    lemma_sqrt_is(8_000_000_000_000_000_000, 2_828_427_124);
    lemma_sqrt_is(34_359_738_368_000_000_000_000_000_000, 185_363_800_047_366);
    lemma_sqrt_is(8_480_000_000_000_000_000, 2_912_043_955);
    lemma_sqrt_is(36_421_322_670_080_000_000_000_000_000, 190_843_712_681_555);
    assert(vector_checks());
    let l = line_l();
    let m = line_m();
    assert(l.cross(m) == 707_106_781_000_000_000);
    assert(l.crossing_point(m) == (1_000_000_000int, 1_707_106_781int)) by {
        assert((l.d * m.u.y - m.d * l.u.y) * SCALE == 707_106_781_000_000_000_000_000_000int);
        assert((l.u.x * m.d - m.u.x * l.d) * SCALE == 1_207_106_781_000_000_000_000_000_000int);
        assert(707_106_781_000_000_000_000_000_000int / 707_106_781_000_000_000int == 1_000_000_000) by (nonlinear_arith);
        assert(1_207_106_781_000_000_000_000_000_000int / 707_106_781_000_000_000int == 1_707_106_781) by (nonlinear_arith);
    }
    assert(line_checks());
    let u = sample_u();
    let v = sample_v();
    let n1 = v.sub_spec(u).rot90_spec();
    assert(n1.x == 2_800_000_000 && n1.y == -800_000_000);
    assert(n1.magnitude_spec() == 2_912_043_955);
    assert(n1.lifted() == n1);
    assert(n1.boosted_magnitude() == 190_843_712_681_555);
    let w1 = n1.normalize_spec();
    assert(w1.x == 961_523_947 && w1.y == -274_721_128) by {
        assert(2_800_000_000int * 65536 * 1_000_000_000 / 190_843_712_681_555int == 961_523_947) by (nonlinear_arith);
        assert(-800_000_000int * 65536 * 1_000_000_000 / 190_843_712_681_555int == -274_721_128) by (nonlinear_arith);
    }
    assert(u.add_spec(v).dot_spec(w1) == 2_747_211_276);
    let n2 = v.sub_spec(u);
    assert(n2.lifted() == n2);
    let w2 = n2.normalize_spec();
    assert(w2.x == -274_721_128 && w2.y == -961_523_948) by {
        assert(-800_000_000int * 65536 * 1_000_000_000 / 190_843_712_681_555int == -274_721_128) by (nonlinear_arith);
        assert(-2_800_000_000int * 65536 * 1_000_000_000 / 190_843_712_681_555int == -961_523_948) by (nonlinear_arith);
    }
    assert(u.add_spec(v).dot_spec(w2) / 2 == -1_016_468_174);
    assert(axiom_checks());
}

} // verus!
