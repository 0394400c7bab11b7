//! The convex boundary that every point and line is held to.
use vstd::prelude::*;
use crate::arith::{SCALE, EPSILON, COORD_MAX};
use crate::primitives::{Vector, Line, Segment};

verus! {

/// A convex region: the points `p` with `p . u <= d` (within the tolerance) for every side.
pub struct Rect {
    pub sides: Vec<Line>,
}

impl Rect {
    /// At least three sides, each a well-formed line.
    pub open spec fn wf(&self) -> bool {
        self.sides@.len() >= 3 && forall|i: int| 0 <= i < self.sides@.len() ==> #[trigger] self.sides@[i].wf()
    }

    /// `p` is on the inner side of every side, within the tolerance.
    pub open spec fn contains_spec(&self, p: Vector) -> bool {
        forall|i: int| 0 <= i < self.sides@.len() ==>
            p.dot_spec(#[trigger] self.sides@[i].u) <= self.sides@[i].d + EPSILON
    }

    /// Side `i` crosses `l` at a point inside the region.
    pub open spec fn hit(&self, l: Line, i: int) -> bool {
        match l.intersect_spec(self.sides@[i]) {
            Some(p) => self.contains_spec(p),
            None => false,
        }
    }

    /// Where `l` crosses side `i`.
    pub open spec fn hit_point(&self, l: Line, i: int) -> Vector {
        l.intersect_spec(self.sides@[i]).unwrap()
    }

    /// `i` is the first side with a hit.
    pub open spec fn first_hit(&self, l: Line, i: int) -> bool {
        0 <= i < self.sides@.len() && self.hit(l, i) && forall|k: int| 0 <= k < i ==> !#[trigger] self.hit(l, k)
    }

    /// `j` is the first side after `i` whose hit differs from the hit of `i`.
    pub open spec fn second_hit(&self, l: Line, i: int, j: int) -> bool {
        i < j < self.sides@.len() && self.hit(l, j)
            && !self.hit_point(l, j).equivalent_spec(self.hit_point(l, i))
            && forall|k: int| i < k < j ==> !(#[trigger] self.hit(l, k)
                && !self.hit_point(l, k).equivalent_spec(self.hit_point(l, i)))
    }

    /// The clipped part of `l`: the hit of the first side that meets it inside, and the first
    /// later hit that differs from it.
    pub open spec fn clip_spec(&self, l: Line) -> Option<Segment> {
        if exists|i: int, j: int| #[trigger] self.first_hit(l, i) && #[trigger] self.second_hit(l, i, j) {
            let (i, j) = choose|i: int, j: int| #[trigger] self.first_hit(l, i) && #[trigger] self.second_hit(l, i, j);
            Some(Segment { a: self.hit_point(l, i), b: self.hit_point(l, j) })
        } else {
            None
        }
    }

    /// The first and second hits are unique, so `clip_spec` names one segment.
    pub proof fn lemma_hits_unique(&self, l: Line, i1: int, j1: int, i2: int, j2: int)
        requires
            self.first_hit(l, i1),
            self.second_hit(l, i1, j1),
            self.first_hit(l, i2),
            self.second_hit(l, i2, j2),
        ensures
            i1 == i2,
            j1 == j2,
    {
        if i1 < i2 {
            assert(!self.hit(l, i1));
        }
        if i2 < i1 {
            assert(!self.hit(l, i2));
        }
        assert(i1 == i2);
        if j1 < j2 {
            assert(!(self.hit(l, j1) && !self.hit_point(l, j1).equivalent_spec(self.hit_point(l, i1))));
        }
        if j2 < j1 {
            assert(!(self.hit(l, j2) && !self.hit_point(l, j2).equivalent_spec(self.hit_point(l, i2))));
        }
    }

    pub fn contains(&self, p: &Vector) -> (r: bool)
        requires
            self.wf(),
            p.within(COORD_MAX as int),
        ensures
            r == self.contains_spec(*p),
    {
        let mut i: usize = 0;
        while i < self.sides.len()
            invariant
                self.wf(),
                p.within(COORD_MAX as int),
                i <= self.sides@.len(),
                forall|k: int| 0 <= k < i ==>
                    p.dot_spec(#[trigger] self.sides@[k].u) <= self.sides@[k].d + EPSILON,
            decreases self.sides@.len() - i,
        {
            let side: &Line = &self.sides[i];
            assert(side.wf());
            if p.dot(&side.u) > side.d + EPSILON {
                return false;
            }
            i = i + 1;
        }
        true
    }

    /// The part of `l` inside the region: the crossing with the first side that meets `l`
    /// inside, then the next such crossing that differs from it; `None` when there are not two.
    pub fn clip(&self, l: &Line) -> (r: Option<Segment>)
        requires
            self.wf(),
            l.wf(),
        ensures
            match r {
                Some(s) => exists|i: int, j: int| #[trigger] self.first_hit(*l, i)
                    && #[trigger] self.second_hit(*l, i, j)
                    && s.a == self.hit_point(*l, i) && s.b == self.hit_point(*l, j),
                None => forall|i: int, j: int| #[trigger] self.first_hit(*l, i) ==> !#[trigger] self.second_hit(*l, i, j),
            },
            r is Some ==> self.contains_spec(r->0.a) && self.contains_spec(r->0.b),
            r == self.clip_spec(*l),
    {
        let mut first: Option<Vector> = None;
        let ghost mut fi: int = -1;
        let mut i: usize = 0;
        while i < self.sides.len()
            invariant
                self.wf(),
                l.wf(),
                i <= self.sides@.len(),
                first is None ==> forall|k: int| 0 <= k < i ==> !#[trigger] self.hit(*l, k),
                first is Some ==> self.first_hit(*l, fi) && fi < i && first->0 == self.hit_point(*l, fi)
                    && forall|k: int| fi < k < i ==> !(#[trigger] self.hit(*l, k)
                        && !self.hit_point(*l, k).equivalent_spec(self.hit_point(*l, fi))),
            decreases self.sides@.len() - i,
        {
            let side: &Line = &self.sides[i];
            assert(side.wf());
            match l.intersect(side) {
                Some(p) => {
                    if self.contains(&p) {
                        match first {
                            None => {
                                first = Some(p);
                                proof { fi = i as int; }
                            },
                            Some(a) => {
                                if !p.equivalent(&a) {
                                    assert(self.second_hit(*l, fi, i as int));
                                    proof {
                                        let (ci, cj) = choose|ci: int, cj: int| #[trigger] self.first_hit(*l, ci)
                                            && #[trigger] self.second_hit(*l, ci, cj);
                                        self.lemma_hits_unique(*l, fi, i as int, ci, cj);
                                    }
                                    return Some(Segment { a, b: p });
                                }
                            },
                        }
                    }
                },
                None => {},
            }
            i = i + 1;
        }
        proof {
            assert forall|a: int, b: int| #[trigger] self.first_hit(*l, a) implies !#[trigger] self.second_hit(*l, a, b) by {
                if first is Some {
                    if a < fi { assert(!self.hit(*l, a)); }
                    if fi < a { assert(self.hit(*l, fi)); }
                    assert(a == fi);
                    if self.second_hit(*l, a, b) {
                        assert(self.hit(*l, b));
                    }
                } else {
                    assert(!self.hit(*l, a));
                }
            }
        }
        None
    }
}

/// The unit square `[0, 1] x [0, 1]`, sides in the order bottom, right, top, left.
pub fn make_square() -> (r: Rect)
    ensures
        r.wf(),
        r.sides@ == seq![
            Line { u: Vector { x: 0, y: -1_000_000_000i64 }, d: 0 },
            Line { u: Vector { x: SCALE, y: 0 }, d: SCALE },
            Line { u: Vector { x: 0, y: SCALE }, d: SCALE },
            Line { u: Vector { x: -1_000_000_000i64, y: 0 }, d: 0 },
        ],
{
    let sides: Vec<Line> = vec![
        Line { u: Vector { x: 0, y: -1_000_000_000 }, d: 0 },
        Line { u: Vector { x: SCALE, y: 0 }, d: SCALE },
        Line { u: Vector { x: 0, y: SCALE }, d: SCALE },
        Line { u: Vector { x: -1_000_000_000, y: 0 }, d: 0 },
    ];
    let r = Rect { sides };
    assert(r.sides@.len() == 4);
    r
}

} // verus!
