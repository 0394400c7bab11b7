//! The single-fold construction rules; each gives the candidate fold lines for its inputs.
use vstd::prelude::*;
use crate::arith::{floor_div, div_nonzero, quotient, isqrt, sqrt_floor, is_sqrt_floor, SCALE, EPSILON, COORD_MAX};
use crate::primitives::{Vector, Line, is_unit, lemma_rotate_keeps_length, NORM_BOOST, LIFT, LIFT_BELOW, lemma_dot_unit, lemma_sqrt_exists, abs_int};
use crate::square::Rect;

verus! {

/// Largest coordinate of a point handed to an axiom, in ticks.
pub const REACH: i64 = 1_099_511_627_776;

/// A line with the given normal, or `None` when the offset leaves the coordinate range.
pub open spec fn line_within(u: Vector, d: int) -> Option<Line> {
    if -COORD_MAX <= d <= COORD_MAX { Some(Line { u, d: d as i64 }) } else { None }
}

/// Both components are within the range that the vector operations accept.
pub open spec fn fits(v: Vector) -> bool {
    v.within(COORD_MAX as int)
}

/// A point that the axioms accept: each component within `REACH`, so that sums and
/// differences of points stay in range.
pub open spec fn point_ok(p: Vector) -> bool {
    p.within(REACH as int)
}

/// The line through `a` and `b`.
pub open spec fn axiom1_spec(a: Vector, b: Vector) -> Option<Line> {
    let n = b.sub_spec(a).rot90_spec();
    if n.is_degenerate_spec() {
        None
    } else {
        let u = n.normalize_spec();
        line_within(u, a.add_spec(b).dot_spec(u) / 2)
    }
}

/// The perpendicular bisector of `a` and `b`.
pub open spec fn axiom2_spec(a: Vector, b: Vector) -> Option<Line> {
    let n = b.sub_spec(a);
    if n.is_degenerate_spec() {
        None
    } else {
        let u = n.normalize_spec();
        line_within(u, a.add_spec(b).dot_spec(u) / 2)
    }
}

fn make_line(u: Vector, d: i128) -> (r: Option<Line>)
    requires
        u.within(SCALE as int),
        is_unit(u),
    ensures
        r == line_within(u, d as int),
        r is Some ==> r->0.wf(),
{
    if -(COORD_MAX as i128) <= d && d <= COORD_MAX as i128 {
        Some(Line { u, d: d as i64 })
    } else {
        None
    }
}

fn fits_exec(v: &Vector) -> (r: bool)
    ensures
        r == fits(*v),
{
    -COORD_MAX <= v.x && v.x <= COORD_MAX && -COORD_MAX <= v.y && v.y <= COORD_MAX
}

/// Axiom 1: the fold through two points. `None` when the points coincide within the tolerance.
pub fn axiom1(a: &Vector, b: &Vector) -> (r: Option<Line>)
    requires
        point_ok(*a),
        point_ok(*b),
    ensures
        r == axiom1_spec(*a, *b),
        r is Some ==> r->0.wf(),
{
    let n: Vector = b.subtract(a).rotate90();
    if n.is_degenerate() {
        return None;
    }
    let u: Vector = n.normalize();
    let d: i64 = a.add(b).dot(&u);
    make_line(u, floor_div(d as i128, 2))
}

/// Axiom 2: the fold that brings one point onto the other.
pub fn axiom2(a: &Vector, b: &Vector) -> (r: Option<Line>)
    requires
        point_ok(*a),
        point_ok(*b),
    ensures
        r == axiom2_spec(*a, *b),
        r is Some ==> r->0.wf(),
{
    let n: Vector = b.subtract(a);
    if n.is_degenerate() {
        return None;
    }
    let u: Vector = n.normalize();
    let d: i64 = a.add(b).dot(&u);
    make_line(u, floor_div(d as i128, 2))
}

/// `p` moved by `t` ticks along the unit direction `dir`, when that stays in range.
pub open spec fn offset_spec(p: Vector, dir: Vector, t: int) -> Option<Vector> {
    let x = p.x + (dir.x * t) / SCALE as int;
    let y = p.y + (dir.y * t) / SCALE as int;
    if -COORD_MAX <= x <= COORD_MAX && -COORD_MAX <= y <= COORD_MAX {
        Some(Vector { x: x as i64, y: y as i64 })
    } else {
        None
    }
}

fn offset(p: &Vector, dir: &Vector, t: i128) -> (r: Option<Vector>)
    requires
        p.within(COORD_MAX as int),
        dir.within(SCALE as int),
        -0x1_0000_0000_0000_0000_0000 <= t <= 0x1_0000_0000_0000_0000_0000,
    ensures
        r == offset_spec(*p, *dir, t as int),
        r is Some ==> fits(r->0),
{
    let ghost s: int = SCALE as int;
    assert(-s * 0x1_0000_0000_0000_0000_0000 <= dir.x * t <= s * 0x1_0000_0000_0000_0000_0000) by (nonlinear_arith)
        requires -s <= dir.x <= s, -0x1_0000_0000_0000_0000_0000 <= t <= 0x1_0000_0000_0000_0000_0000;
    assert(-s * 0x1_0000_0000_0000_0000_0000 <= dir.y * t <= s * 0x1_0000_0000_0000_0000_0000) by (nonlinear_arith)
        requires -s <= dir.y <= s, -0x1_0000_0000_0000_0000_0000 <= t <= 0x1_0000_0000_0000_0000_0000;
    let dx: i128 = floor_div(dir.x as i128 * t, SCALE as i128);
    let dy: i128 = floor_div(dir.y as i128 * t, SCALE as i128);
    proof {
        vstd::arithmetic::div_mod::lemma_div_is_ordered(dir.x * t, s * 0x1_0000_0000_0000_0000_0000, s);
        vstd::arithmetic::div_mod::lemma_div_is_ordered(-s * 0x1_0000_0000_0000_0000_0000, dir.x * t, s);
        vstd::arithmetic::div_mod::lemma_div_is_ordered(dir.y * t, s * 0x1_0000_0000_0000_0000_0000, s);
        vstd::arithmetic::div_mod::lemma_div_is_ordered(-s * 0x1_0000_0000_0000_0000_0000, dir.y * t, s);
        vstd::arithmetic::div_mod::lemma_div_multiples_vanish(0x1_0000_0000_0000_0000_0000, s);
        assert(-s * 0x1_0000_0000_0000_0000_0000 == s * -0x1_0000_0000_0000_0000_0000);
        vstd::arithmetic::div_mod::lemma_div_multiples_vanish(-0x1_0000_0000_0000_0000_0000, s);
    }
    let x: i128 = p.x as i128 + dx;
    let y: i128 = p.y as i128 + dy;
    if -(COORD_MAX as i128) <= x && x <= COORD_MAX as i128 && -(COORD_MAX as i128) <= y
        && y <= COORD_MAX as i128 {
        Some(Vector { x: x as i64, y: y as i64 })
    } else {
        None
    }
}

/// Every line of `s` is well formed.
pub open spec fn all_wf(s: Seq<Line>) -> bool {
    forall|i: int| 0 <= i < s.len() ==> (#[trigger] s[i]).wf()
}

/// The fold through `p` along the normal `n`, when `n` has a direction.
pub open spec fn through_spec(p: Vector, n: Vector) -> Seq<Line> {
    if n.is_degenerate_spec() {
        seq![]
    } else {
        let u = n.normalize_spec();
        match line_within(u, p.dot_spec(u)) {
            Some(l) => seq![l],
            None => seq![],
        }
    }
}

fn through(p: &Vector, n: &Vector, out: &mut Vec<Line>)
    requires
        fits(*p),
        n.within(2 * COORD_MAX),
    ensures
        final(out)@ == old(out)@ + through_spec(*p, *n),
        all_wf(old(out)@) ==> all_wf(final(out)@),
{
    if n.is_degenerate() {
        assert(through_spec(*p, *n) =~= seq![]);
        return;
    }
    let u: Vector = n.normalize();
    let d: i64 = p.dot(&u);
    match make_line(u, d as i128) {
        Some(l) => { out.push(l); },
        None => { assert(through_spec(*p, *n) =~= seq![]); },
    }
}

/// Both lines, folded onto each other: their bisector when parallel, else the two bisectors
/// of their angles.
pub open spec fn axiom3_spec(a: Line, b: Line) -> Seq<Line> {
    if !a.crosses_spec(b) {
        let k = a.u.dot_spec(b.u);
        let d = (a.d + (b.d * k) / SCALE as int) / 2;
        match line_within(a.u, d) {
            Some(l) => seq![l],
            None => seq![],
        }
    } else {
        match a.intersect_spec(b) {
            Some(p) => through_spec(p, a.u.add_spec(b.u)) + through_spec(p, a.u.sub_spec(b.u)),
            None => seq![],
        }
    }
}

/// Axiom 3: the folds that bring line `a` onto line `b`.
pub fn axiom3(a: &Line, b: &Line, boundary: &Rect) -> (r: Vec<Line>)
    requires
        a.wf(),
        b.wf(),
    ensures
        r@ == axiom3_spec(*a, *b),
        all_wf(r@),
{
    let mut out: Vec<Line> = Vec::new();
    if !a.crosses(b) {
        let k: i64 = a.u.dot(&b.u);
        assert(-0x200_0000_0000_0000_0000_0000_0000 <= b.d * k <= 0x200_0000_0000_0000_0000_0000_0000) by (nonlinear_arith)
            requires -0x400_0000_0000 <= b.d <= 0x400_0000_0000, -0x8000_0000_0000_0000 <= k <= 0x8000_0000_0000_0000;
        let t: i128 = floor_div(b.d as i128 * k as i128, SCALE as i128);
        let d: i128 = floor_div(a.d as i128 + t, 2);
        match make_line(a.u, d) {
            Some(l) => { out.push(l); },
            None => {},
        }
        return out;
    }
    match a.intersect(b) {
        Some(p) => {
            through(&p, &a.u.add(&b.u), &mut out);
            through(&p, &a.u.subtract(&b.u), &mut out);
        },
        None => {},
    }
    out
}

/// The candidates of a construction that yields at most one line.
pub open spec fn opt_seq(l: Option<Line>) -> Seq<Line> {
    match l {
        Some(l) => seq![l],
        None => seq![],
    }
}

/// Where `a` lands when folded across `b`.
pub open spec fn mirror4(a: Vector, b: Line) -> Option<Vector> {
    offset_spec(a, b.u, 2 * (b.d - a.dot_spec(b.u)))
}

/// The fold of axiom 4, when the mirror image of `a` across `b` lies inside.
pub open spec fn axiom4_spec(a: Vector, b: Line, boundary: Rect) -> Seq<Line> {
    match mirror4(a, b) {
        Some(m) => if boundary.contains_spec(m) {
            let u = b.u.rot90_spec();
            opt_seq(line_within(u, a.dot_spec(u)))
        } else {
            seq![]
        },
        None => seq![],
    }
}

/// Axiom 4: the fold through `a` perpendicular to `b`, kept only when the mirror image of
/// `a` across `b` lies inside the boundary.
pub fn axiom4(a: &Vector, b: &Line, boundary: &Rect) -> (r: Vec<Line>)
    requires
        point_ok(*a),
        b.wf(),
        boundary.wf(),
    ensures
        r@ == axiom4_spec(*a, *b, *boundary),
        all_wf(r@),
        r@.len() <= 1,
{
    let mut out: Vec<Line> = Vec::new();
    let dist: i128 = b.d as i128 - a.dot(&b.u) as i128;
    match offset(a, &b.u, 2 * dist) {
        Some(m) => {
            if boundary.contains(&m) {
                let u: Vector = b.u.rotate90();
                proof { lemma_rotate_keeps_length(b.u); }
                let d: i64 = a.dot(&u);
                match make_line(u, d as i128) {
                    Some(l) => { out.push(l); },
                    None => {},
                }
            }
        },
        None => {},
    }
    out
}

/// The fold through `p1` that takes `p2` to the mirror point `m`, if `m` is inside.
pub open spec fn fold_to_mirror(p1: Vector, p2: Vector, m: Option<Vector>, boundary: Rect) -> Seq<Line> {
    match m {
        Some(m) => if boundary.contains_spec(m) { through_spec(p1, p2.sub_spec(m)) } else { seq![] },
        None => seq![],
    }
}

/// The folds of axiom 5: `a` is the signed distance from `p1` to `l`, `c` the distance from
/// `p1` to `p2`, and the two candidate images of `p2` straddle the foot of `p1` on `l`.
pub open spec fn axiom5_spec(p1: Vector, p2: Vector, l: Line, boundary: Rect) -> Seq<Line> {
    let a = l.d - p1.dot_spec(l.u);
    let c = p1.sub_spec(p2).magnitude_spec();
    if a > c || -a > c {
        seq![]
    } else {
        let b = sqrt_floor(c * c - a * a);
        match offset_spec(p1, l.u, a) {
            Some(center) => {
                let dir = l.u.rot90_spec();
                fold_to_mirror(p1, p2, offset_spec(center, dir, b), boundary)
                    + if b != 0 { fold_to_mirror(p1, p2, offset_spec(center, dir, -b), boundary) } else { seq![] }
            },
            None => seq![],
        }
    }
}

fn fold_to(p1: &Vector, p2: &Vector, m: Option<Vector>, boundary: &Rect, out: &mut Vec<Line>)
    requires
        point_ok(*p1),
        point_ok(*p2),
        boundary.wf(),
        m is Some ==> fits(m->0),
    ensures
        final(out)@ == old(out)@ + fold_to_mirror(*p1, *p2, m, *boundary),
        all_wf(old(out)@) ==> all_wf(final(out)@),
{
    match m {
        Some(m) => {
            if boundary.contains(&m) {
                through(p1, &p2.subtract(&m), out);
            } else {
                assert(fold_to_mirror(*p1, *p2, Some(m), *boundary) =~= seq![]);
            }
        },
        None => {
            assert(fold_to_mirror(*p1, *p2, m, *boundary) =~= seq![]);
        },
    }
}

/// Axiom 5: the folds through `p1` that bring `p2` onto `l`; one for each crossing of `l`
/// with the circle about `p1` through `p2` that lies inside the boundary.
pub fn axiom5(p1: &Vector, p2: &Vector, l: &Line, boundary: &Rect) -> (r: Vec<Line>)
    requires
        point_ok(*p1),
        point_ok(*p2),
        l.wf(),
        boundary.wf(),
    ensures
        r@ == axiom5_spec(*p1, *p2, *l, *boundary),
        all_wf(r@),
        r@.len() <= 2,
{
    let mut out: Vec<Line> = Vec::new();
    let a: i128 = l.d as i128 - p1.dot(&l.u) as i128;
    let c: i128 = p1.distance_to(p2) as i128;
    if a > c || -a > c {
        return out;
    }
    assert(0 <= a * a <= c * c <= 0x100_0000_0000_0000_0000_0000) by (nonlinear_arith)
        requires 0 <= c <= 0x1000_0000_0000, -c <= a <= c;
    let b: i128 = isqrt((c * c - a * a) as u128) as i128;
    proof {
        if b > c {
            assert(b * b > c * c) by (nonlinear_arith) requires b > c, c >= 0;
        }
    }
    match offset(p1, &l.u, a) {
        Some(center) => {
            let dir: Vector = l.u.rotate90();
            fold_to(p1, p2, offset(&center, &dir, b), boundary, &mut out);
            if b != 0 {
                fold_to(p1, p2, offset(&center, &dir, -b), boundary, &mut out);
            } else {
                assert(out@ =~= out@ + seq![]);
            }
        },
        None => {},
    }
    out
}

/// The fold of axiom 7, solved directly for its offset.
pub open spec fn axiom7_spec(p: Vector, l1: Line, l2: Line) -> Seq<Line> {
    let u = l1.u.rot90_spec();
    let uu = u.dot_spec(l2.u);
    if -EPSILON < uu < EPSILON {
        seq![]
    } else {
        let a = p.dot_spec(u);
        let b = p.dot_spec(l2.u);
        opt_seq(line_within(u, quotient(l2.d * SCALE + 2 * a * uu - b * SCALE, 2 * uu)))
    }
}

/// Axiom 7: the fold perpendicular to `l1` that brings `p` onto `l2`; none when `l1` runs
/// parallel to the normal of `l2`.
pub fn axiom7(p: &Vector, l1: &Line, l2: &Line, boundary: &Rect) -> (r: Vec<Line>)
    requires
        point_ok(*p),
        l1.wf(),
        l2.wf(),
    ensures
        r@ == axiom7_spec(*p, *l1, *l2),
        all_wf(r@),
        r@.len() <= 1,
{
    let mut out: Vec<Line> = Vec::new();
    let u: Vector = l1.u.rotate90();
    proof { lemma_rotate_keeps_length(l1.u); }
    let uu: i64 = u.dot(&l2.u);
    if -EPSILON < uu && uu < EPSILON {
        return out;
    }
    let a: i64 = p.dot(&u);
    let b: i64 = p.dot(&l2.u);
    proof {
        lemma_dot_unit(u, l2.u);
        lemma_dot_unit(*p, u);
        lemma_dot_unit(*p, l2.u);
        let c = 2 * COORD_MAX;
        assert(-2 * c * c <= 2 * a * uu <= 2 * c * c) by (nonlinear_arith)
            requires -c <= a <= c, -c <= uu <= c;
        assert(-c * SCALE <= l2.d * SCALE <= c * SCALE) by (nonlinear_arith)
            requires -c <= l2.d <= c;
        assert(-c * SCALE <= b * SCALE <= c * SCALE) by (nonlinear_arith)
            requires -c <= b <= c;
    }
    let n: i128 = l2.d as i128 * SCALE as i128 + 2 * a as i128 * uu as i128 - b as i128 * SCALE as i128;
    let d: i128 = div_nonzero(n, 2 * uu as i128);
    match make_line(u, d) {
        Some(l) => { out.push(l); },
        None => {},
    }
    out
}

/// The cubic `a x^3 + b x^2 + c x + d`; each coefficient is a real number times `SCALE`.
#[derive(Clone, Copy, Debug)]
pub struct Cubic {
    pub a: i128,
    pub b: i128,
    pub c: i128,
    pub d: i128,
}

/// `x * y / SCALE`, rounded down.
pub open spec fn mul_s(x: int, y: int) -> int {
    (x * y) / SCALE as int
}

fn mul_scaled(x: i64, y: i64) -> (r: i128)
    ensures
        r == mul_s(x as int, y as int),
        -0x40_0000_0000_0000_0000_0000_0000 <= r <= 0x40_0000_0000_0000_0000_0000_0000,
{
    assert(-0x4000_0000_0000_0000_0000_0000_0000_0000 <= x * y <= 0x4000_0000_0000_0000_0000_0000_0000_0000) by (nonlinear_arith)
        requires -0x8000_0000_0000_0000 <= x <= 0x8000_0000_0000_0000, -0x8000_0000_0000_0000 <= y <= 0x8000_0000_0000_0000;
    let r: i128 = floor_div(x as i128 * y as i128, SCALE as i128);
    proof {
        let s = SCALE as int;
        let m = 0x4000_0000_0000_0000_0000_0000_0000_0000int;
        vstd::arithmetic::div_mod::lemma_div_is_ordered(x * y, m, s);
        vstd::arithmetic::div_mod::lemma_div_is_ordered(-m, x * y, s);
        assert(m / s <= 0x40_0000_0000_0000_0000_0000_0000);
        assert((-m) / s >= -0x40_0000_0000_0000_0000_0000_0000);
    }
    r
}

/// The point that the fold of axiom 6 puts `p1` on lies at `base + x * dir` on `l1`.
pub open spec fn axiom6_base(l1: Line) -> Vector {
    l1.u.scale_spec(l1.d as int)
}

/// `p1` lies on `l1` within the loose tolerance of axiom 6 (two percent of the offset).
pub open spec fn on_line_loosely(p1: Vector, l1: Line) -> bool {
    50 * abs_int(l1.d - l1.u.dot_spec(p1)) < abs_int(l1.d as int)
}

/// The cubic whose real roots give the folds of axiom 6, when the configuration allows one.
pub open spec fn axiom6_cubic_spec(p1: Vector, p2: Vector, l1: Line, l2: Line) -> Option<Cubic> {
    let base = axiom6_base(l1);
    let dir = l1.u.rot90_spec();
    let t1 = p1.add_spec(base);
    let vec1 = t1.sub_spec(p2.add_spec(p2));
    let vec2 = base.sub_spec(p1);
    let sum = vec1.add_spec(vec2);
    if on_line_loosely(p1, l1) || !fits(base) || !fits(t1) || !fits(vec1) || !fits(vec2) || !fits(sum) {
        None
    } else {
        let c1 = p2.dot_spec(l2.u) - l2.d;
        let c2 = 2 * vec2.dot_spec(dir);
        let c3 = vec2.dot_spec(vec2);
        let c4 = sum.dot_spec(dir);
        let c5 = vec1.dot_spec(vec2);
        let c6 = dir.dot_spec(l2.u);
        let c7 = vec2.dot_spec(l2.u);
        Some(Cubic {
            a: c6 as i128,
            b: (c1 + mul_s(c4, c6) + c7) as i128,
            c: (mul_s(c1, c2) + mul_s(c5, c6) + mul_s(c4, c7)) as i128,
            d: (mul_s(c1, c3) + mul_s(c5, c7)) as i128,
        })
    }
}

/// Axiom 6, first half: the cubic in the position, along `l1`, of the image of `p1`.
/// `None` when `p1` lies on `l1` within the loose tolerance, or a value leaves the range.
pub fn axiom6_cubic(p1: &Vector, p2: &Vector, l1: &Line, l2: &Line) -> (r: Option<Cubic>)
    requires
        point_ok(*p1),
        point_ok(*p2),
        l1.wf(),
        l2.wf(),
    ensures
        r == axiom6_cubic_spec(*p1, *p2, *l1, *l2),
{
    let g: i128 = l1.d as i128 - l1.u.dot(p1) as i128;
    let ag: i128 = if g < 0 { -g } else { g };
    let ad: i128 = if l1.d < 0 { -(l1.d as i128) } else { l1.d as i128 };
    if 50 * ag < ad {
        return None;
    }
    let base: Vector = l1.u.scale(l1.d);
    if !fits_exec(&base) {
        return None;
    }
    let dir: Vector = l1.u.rotate90();
    let t1: Vector = p1.add(&base);
    if !fits_exec(&t1) {
        return None;
    }
    let vec1: Vector = t1.subtract(&p2.add(p2));
    let vec2: Vector = base.subtract(p1);
    if !fits_exec(&vec1) || !fits_exec(&vec2) {
        return None;
    }
    let sum: Vector = vec1.add(&vec2);
    if !fits_exec(&sum) {
        return None;
    }
    proof {
        lemma_dot_unit(*p2, l2.u);
        lemma_dot_unit(vec2, dir);
    }
    let c1: i64 = p2.dot(&l2.u) - l2.d;
    let c2: i64 = 2 * vec2.dot(&dir);
    let c3: i64 = vec2.dot(&vec2);
    let c4: i64 = sum.dot(&dir);
    let c5: i64 = vec1.dot(&vec2);
    let c6: i64 = dir.dot(&l2.u);
    let c7: i64 = vec2.dot(&l2.u);
    Some(Cubic {
        a: c6 as i128,
        b: c1 as i128 + mul_scaled(c4, c6) + c7 as i128,
        c: mul_scaled(c1, c2) + mul_scaled(c5, c6) + mul_scaled(c4, c7),
        d: mul_scaled(c1, c3) + mul_scaled(c5, c7),
    })
}

/// The degree of the cubic once coefficients within the tolerance of zero are dropped, from
/// the highest down.
pub open spec fn degree_spec(c: Cubic) -> u8 {
    if abs_int(c.a as int) > EPSILON { 3 }
    else if abs_int(c.b as int) > EPSILON { 2 }
    else if abs_int(c.c as int) > EPSILON { 1 }
    else { 0 }
}

/// The degree that the root finding uses for `c`.
pub fn polynomial_degree(c: &Cubic) -> (r: u8)
    ensures
        r == degree_spec(*c),
{
    let e: i128 = EPSILON as i128;
    if c.a > e || c.a < -e {
        3
    } else if c.b > e || c.b < -e {
        2
    } else if c.c > e || c.c < -e {
        1
    } else {
        0
    }
}

/// The fold of axiom 6 for the root `x` (in ticks), kept when both images lie inside.
pub open spec fn axiom6_root_spec(p1: Vector, p2: Vector, l1: Line, x: int, boundary: Rect) -> Seq<Line> {
    match if fits(axiom6_base(l1)) { offset_spec(axiom6_base(l1), l1.u.rot90_spec(), x) } else { None } {
        None => seq![],
        Some(m1) => {
            let w = m1.sub_spec(p1);
            if w.is_degenerate_spec() || !boundary.contains_spec(m1) {
                seq![]
            } else {
                let u = w.normalize_spec();
                let d = u.dot_spec(m1.midpoint_spec(p1));
                match offset_spec(p2, u, 2 * (d - p2.dot_spec(u))) {
                    Some(m2) => if boundary.contains_spec(m2) { opt_seq(line_within(u, d)) } else { seq![] },
                    None => seq![],
                }
            }
        },
    }
}

/// The folds of axiom 6 for each root in turn.
pub open spec fn axiom6_lines_spec(p1: Vector, p2: Vector, l1: Line, roots: Seq<i64>, boundary: Rect) -> Seq<Line>
    decreases roots.len(),
{
    if roots.len() == 0 {
        seq![]
    } else {
        axiom6_lines_spec(p1, p2, l1, roots.drop_last(), boundary)
            + axiom6_root_spec(p1, p2, l1, roots.last() as int, boundary)
    }
}

/// Axiom 6, second half: for each real root of the cubic, the fold that takes `p1` onto `l1`
/// at that position, kept only when the images of `p1` and of `p2` both lie inside.
pub fn axiom6_from_roots(p1: &Vector, p2: &Vector, l1: &Line, roots: &Vec<i64>, boundary: &Rect) -> (r: Vec<Line>)
    requires
        point_ok(*p1),
        point_ok(*p2),
        l1.wf(),
        boundary.wf(),
    ensures
        r@ == axiom6_lines_spec(*p1, *p2, *l1, roots@, *boundary),
        all_wf(r@),
{
    let mut out: Vec<Line> = Vec::new();
    let base: Vector = l1.u.scale(l1.d);
    let dir: Vector = l1.u.rotate90();
    let mut k: usize = 0;
    while k < roots.len()
        invariant
            point_ok(*p1),
            point_ok(*p2),
            l1.wf(),
            boundary.wf(),
            base == axiom6_base(*l1),
            dir == l1.u.rot90_spec(),
            k <= roots@.len(),
            out@ == axiom6_lines_spec(*p1, *p2, *l1, roots@.subrange(0, k as int), *boundary),
            all_wf(out@),
        decreases roots@.len() - k,
    {
        let ghost before = out@;
        assert(roots@.subrange(0, k + 1).drop_last() =~= roots@.subrange(0, k as int));
        if fits_exec(&base) {
            match offset(&base, &dir, roots[k] as i128) {
                Some(m1) => {
                    let w: Vector = m1.subtract(p1);
                    if !w.is_degenerate() && boundary.contains(&m1) {
                        let u: Vector = w.normalize();
                        let d: i64 = u.dot(&m1.midpoint(p1));
                        match offset(p2, &u, 2 * (d as i128 - p2.dot(&u) as i128)) {
                            Some(m2) => {
                                if boundary.contains(&m2) {
                                    match make_line(u, d as i128) {
                                        Some(l) => { out.push(l); },
                                        None => {},
                                    }
                                }
                            },
                            None => {},
                        }
                    }
                },
                None => {},
            }
        }
        assert(out@ =~= before + axiom6_root_spec(*p1, *p2, *l1, roots@[k as int] as int, *boundary));
        k = k + 1;
    }
    assert(roots@.subrange(0, k as int) =~= roots@);
    out
}

/// Axiom 5 has no fold when `l` lies farther from `p1` than `p2` does, and at most one when
/// the distances are equal (the circle about `p1` touches `l`).
pub proof fn lemma_axiom5_reach(p1: Vector, p2: Vector, l: Line, boundary: Rect)
    ensures
        l.d - p1.dot_spec(l.u) > p1.sub_spec(p2).magnitude_spec() ==> axiom5_spec(p1, p2, l, boundary).len() == 0,
        l.d - p1.dot_spec(l.u) == p1.sub_spec(p2).magnitude_spec() ==> axiom5_spec(p1, p2, l, boundary).len() <= 1,
{
    let a = l.d - p1.dot_spec(l.u);
    let c = p1.sub_spec(p2).magnitude_spec();
    if a == c {
        assert(c * c - a * a == 0);
        lemma_sqrt_exists(0);
        assert(is_sqrt_floor(0, 0));
        assert(sqrt_floor(0) == 0) by {
            let r = choose|r: int| #[trigger] is_sqrt_floor(0, r);
            if r > 0 {
                assert(r * r > 0) by (nonlinear_arith) requires r > 0;
            }
        }
        lemma_through_len(p1, p2, l, boundary);
    }
}

proof fn lemma_through_len(p1: Vector, p2: Vector, l: Line, boundary: Rect)
    ensures
        forall|m: Option<Vector>| (#[trigger] fold_to_mirror(p1, p2, m, boundary)).len() <= 1,
{
    assert forall|m: Option<Vector>| (#[trigger] fold_to_mirror(p1, p2, m, boundary)).len() <= 1 by {
        match m {
            Some(v) => {
                let n = p2.sub_spec(v);
                if !n.is_degenerate_spec() {
                    let u = n.normalize_spec();
                    match line_within(u, p1.dot_spec(u)) {
                        Some(_) => {},
                        None => {},
                    }
                }
            },
            None => {},
        }
    }
}

/// Axiom 3 gives at most one fold for parallel lines and at most two for crossing lines.
pub proof fn lemma_axiom3_count(a: Line, b: Line)
    ensures
        !a.crosses_spec(b) ==> axiom3_spec(a, b).len() <= 1,
        axiom3_spec(a, b).len() <= 2,
{
    lemma_through_one();
}

proof fn lemma_through_one()
    ensures
        forall|p: Vector, n: Vector| (#[trigger] through_spec(p, n)).len() <= 1,
{
    assert forall|p: Vector, n: Vector| (#[trigger] through_spec(p, n)).len() <= 1 by {
        if !n.is_degenerate_spec() {
            let u = n.normalize_spec();
            match line_within(u, p.dot_spec(u)) {
                Some(_) => {},
                None => {},
            }
        }
    }
}

/// Both points lie on the line of axiom 1 through them, within twice the tolerance, when
/// they lie in the box `[-4, 4] x [-4, 4]`.
pub proof fn lemma_axiom1_through_both(a: Vector, b: Vector)
    requires
        a.within(4 * SCALE),
        b.within(4 * SCALE),
        axiom1_spec(a, b) is Some,
    ensures
        abs_int(a.dot_spec(axiom1_spec(a, b)->0.u) - axiom1_spec(a, b)->0.d) <= 2 * EPSILON,
        abs_int(b.dot_spec(axiom1_spec(a, b)->0.u) - axiom1_spec(a, b)->0.d) <= 2 * EPSILON,
{
    let s = SCALE as int;
    let k = NORM_BOOST as int;
    let delta = b.sub_spec(a);
    let n = delta.rot90_spec();
    assert(n.within(2 * COORD_MAX));
    n.lemma_lifted();
    let lw = n.lifted();
    lw.lemma_normalize_bounds();
    let m = lw.boosted_magnitude();
    let u = lw.normalize_raw_spec();
    let dx = b.x - a.x;
    let dy = b.y - a.y;
    assert(n.x == -dy && n.y == dx);
    let c: int = if n.magnitude_spec() < LIFT_BELOW { LIFT as int } else { 1 };
    assert(lw.x == n.x * c && lw.y == n.y * c);
    // m * u.x + rx == lw.x * k * s, m * u.y + ry == lw.y * k * s
    let nx = lw.x * k * s;
    let ny = lw.y * k * s;
    assert(u.x == nx / m && u.y == ny / m);
    vstd::arithmetic::div_mod::lemma_fundamental_div_mod(nx, m);
    vstd::arithmetic::div_mod::lemma_fundamental_div_mod(ny, m);
    let rx = nx % m;
    let ry = ny % m;
    assert(m * u.x + rx == nx && m * u.y + ry == ny);
    let w = dx * u.x + dy * u.y;
    let tx = m * u.x;
    let ty = m * u.y;
    assert(m * w == dx * tx + dy * ty) by (nonlinear_arith)
        requires w == dx * u.x + dy * u.y, tx == m * u.x, ty == m * u.y;
    assert(dx * tx == dx * nx - dx * rx) by (nonlinear_arith) requires tx == nx - rx;
    assert(dy * ty == dy * ny - dy * ry) by (nonlinear_arith) requires ty == ny - ry;
    assert(dx * nx + dy * ny == 0) by (nonlinear_arith)
        requires nx == (-dy * c) * k * s, ny == (dx * c) * k * s;
    assert(m * w == -(dx * rx) - dy * ry);
    assert(-(abs_int(dx) + abs_int(dy)) <= w <= abs_int(dx) + abs_int(dy)) by (nonlinear_arith)
        requires m * w == -(dx * rx) - dy * ry, 0 <= rx < m, 0 <= ry < m, m > 0;
    let ra = a.x * u.x + a.y * u.y;
    let rb = b.x * u.x + b.y * u.y;
    assert(rb - ra == w) by (nonlinear_arith)
        requires dx == b.x - a.x, dy == b.y - a.y, w == dx * u.x + dy * u.y,
            ra == a.x * u.x + a.y * u.y, rb == b.x * u.x + b.y * u.y;
    let sum = a.add_spec(b);
    assert(sum.x == a.x + b.x && sum.y == a.y + b.y);
    let rs = sum.x * u.x + sum.y * u.y;
    assert(rs == ra + rb) by (nonlinear_arith)
        requires rs == sum.x * u.x + sum.y * u.y, sum.x == a.x + b.x, sum.y == a.y + b.y,
            ra == a.x * u.x + a.y * u.y, rb == b.x * u.x + b.y * u.y;
    let da = ra / s;
    let db = rb / s;
    let c = rs / s;
    vstd::arithmetic::div_mod::lemma_fundamental_div_mod(ra, s);
    vstd::arithmetic::div_mod::lemma_fundamental_div_mod(rb, s);
    vstd::arithmetic::div_mod::lemma_fundamental_div_mod(rs, s);
    vstd::arithmetic::div_mod::lemma_fundamental_div_mod(c, 2);
    assert(abs_int(dx) + abs_int(dy) <= 16 * s);
    assert(-17 <= db - da <= 17) by (nonlinear_arith)
        requires ra == s * da + ra % s, rb == s * db + rb % s, 0 <= ra % s < s, 0 <= rb % s < s,
            -16 * s <= rb - ra <= 16 * s, s > 0;
    assert(da + db <= c <= da + db + 1) by (nonlinear_arith)
        requires ra == s * da + ra % s, rb == s * db + rb % s, rs == s * c + rs % s,
            0 <= ra % s < s, 0 <= rb % s < s, 0 <= rs % s < s, rs == ra + rb, s > 0;
    let d = c / 2;
    assert(a.dot_spec(u) == da && b.dot_spec(u) == db && sum.dot_spec(u) == c);
    assert(axiom1_spec(a, b)->0.d == d);
}

} // verus!
