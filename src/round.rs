//! One generation of the enumeration: apply the axioms to a snapshot of what is known,
//! keep the new lines, intersect them, and merge both results into the history.
use vstd::prelude::*;
use crate::primitives::{Vector, Line, Segment};
use crate::square::Rect;
use crate::axioms::{axiom1, axiom2, axiom3, axiom4, axiom5, axiom7, axiom1_spec, axiom2_spec, axiom3_spec, axiom4_spec,
    axiom5_spec, axiom7_spec,
    opt_seq, all_wf, point_ok, fits};
use crate::tree::{Index, QuadTree, LineContainer, Entity, BUCKETS, values, flat_upto, lemma_has_grows, lemma_held_all,
    lemma_grows_trans, lemma_same_shape_values, lemma_has_after_append};

verus! {

/// How much of the accumulated state a round builds from.
#[derive(Clone, Copy, Debug)]
pub struct RoundConfig {
    /// Intersection points are computed only in rounds numbered below this.
    pub point_rounds: usize,
    /// The axioms see at most this many points, the first ones in index order.
    pub max_points: usize,
    /// The axioms see at most this many lines, the first ones in index order.
    pub max_lines: usize,
    /// Only the first this many new lines are intersected with the others.
    pub max_rows: usize,
}

/// Every held line is well formed.
pub open spec fn wf_line() -> spec_fn(Line) -> bool {
    |l: Line| l.wf()
}

/// Every held point may be handed to an axiom and lies inside the boundary.
pub open spec fn inside(boundary: Rect) -> spec_fn(Vector) -> bool {
    |p: Vector| point_ok(p) && boundary.contains_spec(p)
}

/// A line index that the rounds maintain.
pub open spec fn lines_ok(idx: LineContainer) -> bool {
    idx.wf() && idx.all(wf_line()) && idx.distinct()
}

/// A point index that the rounds maintain for `boundary`.
pub open spec fn points_ok(idx: QuadTree, boundary: Rect) -> bool {
    idx.wf() && idx.all(inside(boundary)) && idx.distinct()
}

/// `l` is known, to the history or to the current round.
pub open spec fn known(lines: LineContainer, new_lines: LineContainer, l: Line) -> bool {
    lines.has(l) || new_lines.has(l)
}

/// The usual settings: every point and line, and intersections in the first
/// three rounds for the first 301 new lines.
pub fn default_config() -> (r: RoundConfig)
    ensures
        r.point_rounds == 3,
        r.max_points == usize::MAX,
        r.max_lines == usize::MAX,
        r.max_rows == 301,
{
    RoundConfig { point_rounds: 3, max_points: usize::MAX, max_lines: usize::MAX, max_rows: 301 }
}

/// Counts `line` against the history, else against this round, else adds it to this round.
pub fn add_candidate(line: &Line, lines: &mut LineContainer, new_lines: &mut LineContainer)
    requires
        line.wf(),
        lines_ok(*old(lines)),
        lines_ok(*old(new_lines)),
        old(lines).separate(*old(new_lines)),
    ensures
        lines_ok(*final(lines)),
        lines_ok(*final(new_lines)),
        final(lines).separate(*final(new_lines)),
        old(lines).has(*line) ==> Index::counted(*old(lines), *final(lines), *line, 1)
            && final(new_lines).cells() == old(new_lines).cells(),
        !old(lines).has(*line) ==> final(lines).cells() == old(lines).cells()
            && Index::inserted(*old(new_lines), *final(new_lines), *line),
        Index::grows(*old(lines), *final(lines)),
        Index::same_shape(*old(lines), *final(lines)),
        Index::grows(*old(new_lines), *final(new_lines)),
        known(*final(lines), *final(new_lines), *line),
        old(lines).total() + old(new_lines).total() < u64::MAX
            ==> final(lines).total() + final(new_lines).total() == old(lines).total() + old(new_lines).total() + 1,
{
    proof {
        crate::tree::lemma_total_nonneg(*old(lines));
        crate::tree::lemma_total_nonneg(*old(new_lines));
    }
    let ghost (l0, n0) = (*lines, *new_lines);
    if lines.duplicate_check(line) {
        proof {
            crate::tree::lemma_same_shape_has(l0, *lines);
            crate::tree::lemma_shape_separate(l0, *lines, n0);
        }
        return;
    }
    proof {
        crate::tree::lemma_same_shape_has(l0, *lines);
        crate::tree::lemma_shape_separate(l0, *lines, n0);
    }
    new_lines.insert(line);
    proof {
        crate::tree::lemma_insert_separate(*lines, n0, *new_lines, *line);
        if !old(new_lines).has(*line) {
            let b = crate::tree::bucket_of(line.key_spec());
            <Line as Entity>::lemma_same_refl(line);
            assert(new_lines.valid(b, old(new_lines).cells()[b].len() as int));
        }
    }
}

/// Offers every line of `cands` with `add_candidate`.
pub fn offer(cands: &Vec<Line>, lines: &mut LineContainer, new_lines: &mut LineContainer)
    requires
        all_wf(cands@),
        lines_ok(*old(lines)),
        lines_ok(*old(new_lines)),
        old(lines).separate(*old(new_lines)),
    ensures
        lines_ok(*final(lines)),
        lines_ok(*final(new_lines)),
        final(lines).separate(*final(new_lines)),
        Index::grows(*old(lines), *final(lines)),
        Index::same_shape(*old(lines), *final(lines)),
        Index::grows(*old(new_lines), *final(new_lines)),
        forall|k: int| 0 <= k < cands@.len() ==> known(*final(lines), *final(new_lines), #[trigger] cands@[k]),
        old(lines).total() + old(new_lines).total() + cands@.len() <= u64::MAX
            ==> final(lines).total() + final(new_lines).total() == old(lines).total() + old(new_lines).total() + cands@.len(),
{
    let mut k: usize = 0;
    while k < cands.len()
        invariant
            all_wf(cands@),
            k <= cands@.len(),
            lines_ok(*lines),
            lines_ok(*new_lines),
            lines.separate(*new_lines),
            Index::grows(*old(lines), *lines),
            Index::same_shape(*old(lines), *lines),
            Index::grows(*old(new_lines), *new_lines),
            forall|j: int| 0 <= j < k ==> known(*lines, *new_lines, #[trigger] cands@[j]),
            old(lines).total() + old(new_lines).total() + cands@.len() <= u64::MAX
                ==> lines.total() + new_lines.total() == old(lines).total() + old(new_lines).total() + k,
        decreases cands@.len() - k,
    {
        let ghost (l0, n0) = (*lines, *new_lines);
        add_candidate(&cands[k], lines, new_lines);
        proof {
            assert forall|j: int| 0 <= j <= k implies known(*lines, *new_lines, #[trigger] cands@[j]) by {
                if j < k {
                    if l0.has(cands@[j]) { lemma_has_grows(l0, *lines, cands@[j]); }
                    else { lemma_has_grows(n0, *new_lines, cands@[j]); }
                }
            }
        }
        k = k + 1;
    }
}

/// `f(i, j)` summed over `lo <= j < hi`.
pub open spec fn row_sum(f: spec_fn(int, int) -> int, i: int, lo: int, hi: int) -> int
    decreases hi - lo,
{
    if hi <= lo { 0 } else { row_sum(f, i, lo, hi - 1) + f(i, hi - 1) }
}

/// `f(i, j)` summed over the pairs `i < j < n` with `i < rows`.
pub open spec fn pair_sum(f: spec_fn(int, int) -> int, rows: int, n: int) -> int
    decreases rows,
{
    if rows <= 0 { 0 } else { pair_sum(f, rows - 1, n) + row_sum(f, rows - 1, rows, n) }
}

/// Number of axiom-1 candidates of the pair `(i, j)` of `pts`.
pub open spec fn count1(pts: Seq<Vector>) -> spec_fn(int, int) -> int {
    |i: int, j: int| opt_seq(axiom1_spec(pts[i], pts[j])).len() as int
}

/// Number of axiom-2 candidates of the pair `(i, j)` of `pts`.
pub open spec fn count2(pts: Seq<Vector>) -> spec_fn(int, int) -> int {
    |i: int, j: int| opt_seq(axiom2_spec(pts[i], pts[j])).len() as int
}

proof fn lemma_row_sum_mono(f: spec_fn(int, int) -> int, i: int, lo: int, a: int, b: int)
    requires
        lo <= a <= b,
        forall|x: int, y: int| #[trigger] f(x, y) >= 0,
    ensures
        row_sum(f, i, lo, a) <= row_sum(f, i, lo, b),
        row_sum(f, i, lo, a) >= 0,
    decreases b - a + (a - lo),
{
    if a < b {
        lemma_row_sum_mono(f, i, lo, a, b - 1);
        assert(f(i, b - 1) >= 0);
    } else if lo < a {
        lemma_row_sum_mono(f, i, lo, a - 1, a - 1);
        assert(f(i, a - 1) >= 0);
    }
}

proof fn lemma_pair_sum_mono(f: spec_fn(int, int) -> int, a: int, b: int, n: int)
    requires
        0 <= a <= b,
        forall|x: int, y: int| #[trigger] f(x, y) >= 0,
    ensures
        pair_sum(f, a, n) <= pair_sum(f, b, n),
        pair_sum(f, a, n) >= 0,
    decreases b + a,
{
    if a < b {
        lemma_pair_sum_mono(f, a, b - 1, n);
        if b < n { lemma_row_sum_mono(f, b - 1, b, b, n); }
    } else if a > 0 {
        lemma_pair_sum_mono(f, a - 1, a - 1, n);
        if a < n { lemma_row_sum_mono(f, a - 1, a, a, n); }
    }
}

/// A known line stays known as both indexes grow.
pub proof fn lemma_known_grows(l0: LineContainer, n0: LineContainer, l1: LineContainer, n1: LineContainer, x: Line)
    requires
        known(l0, n0, x),
        Index::grows(l0, l1),
        Index::grows(n0, n1),
    ensures
        known(l1, n1, x),
{
    if l0.has(x) { lemma_has_grows(l0, l1, x); } else { lemma_has_grows(n0, n1, x); }
}

/// The candidate of an axiom that yields at most one line, as a batch.
pub fn batch(l: Option<Line>) -> (r: Vec<Line>)
    requires
        l is Some ==> l->0.wf(),
    ensures
        r@ == opt_seq(l),
        all_wf(r@),
{
    match l {
        Some(l) => vec![l],
        None => Vec::new(),
    }
}

/// Axiom 1 over every pair of points; each resulting line is counted or added.
pub fn compute_axiom1(pts: &Vec<Vector>, lines: &mut LineContainer, new_lines: &mut LineContainer, boundary: &Rect)
    requires
        forall|k: int| 0 <= k < pts@.len() ==> point_ok(#[trigger] pts@[k]),
        lines_ok(*old(lines)),
        lines_ok(*old(new_lines)),
        old(lines).separate(*old(new_lines)),
        boundary.wf(),
    ensures
        lines_ok(*final(lines)),
        lines_ok(*final(new_lines)),
        final(lines).separate(*final(new_lines)),
        Index::grows(*old(lines), *final(lines)),
        Index::same_shape(*old(lines), *final(lines)),
        Index::grows(*old(new_lines), *final(new_lines)),
        forall|i2: int, j2: int, k: int| 0 <= i2 < j2 < pts@.len() && 0 <= k < (opt_seq(axiom1_spec(pts@[i2], pts@[j2]))).len()
            ==> known(*final(lines), *final(new_lines), #[trigger] (opt_seq(axiom1_spec(pts@[i2], pts@[j2])))[k]),
        old(lines).total() + old(new_lines).total() + pair_sum(count1(pts@), pts@.len() as int, pts@.len() as int) <= u64::MAX
            ==> final(lines).total() + final(new_lines).total() == old(lines).total() + old(new_lines).total()
                + pair_sum(count1(pts@), pts@.len() as int, pts@.len() as int),
{
    let ghost f = count1(pts@);
    let ghost n = pts@.len() as int;
    let ghost base = old(lines).total() + old(new_lines).total();
    let ghost ok = base + pair_sum(f, n, n) <= u64::MAX;
    assert forall|x: int, y: int| #[trigger] f(x, y) >= 0 by {}
    let mut i: usize = 0;
    while i < pts.len()
        invariant
            forall|k: int| 0 <= k < pts@.len() ==> point_ok(#[trigger] pts@[k]),
            boundary.wf(),
            i <= pts@.len(),
            lines_ok(*lines),
            lines_ok(*new_lines),
            lines.separate(*new_lines),
            Index::grows(*old(lines), *lines),
            Index::same_shape(*old(lines), *lines),
            Index::grows(*old(new_lines), *new_lines),
            forall|i2: int, j2: int, k: int| 0 <= i2 < j2 < pts@.len() && i2 < i && 0 <= k < (opt_seq(axiom1_spec(pts@[i2], pts@[j2]))).len()
                ==> known(*lines, *new_lines, #[trigger] (opt_seq(axiom1_spec(pts@[i2], pts@[j2])))[k]),
            f == count1(pts@), n == pts@.len(),
            base == old(lines).total() + old(new_lines).total(),
            ok == (base + pair_sum(f, n, n) <= u64::MAX),
            forall|x: int, y: int| #[trigger] f(x, y) >= 0,
            ok ==> lines.total() + new_lines.total() == base + pair_sum(f, i as int, n),
        decreases pts@.len() - i,
    {
        let mut j: usize = i + 1;
        while j < pts.len()
            invariant
                forall|k: int| 0 <= k < pts@.len() ==> point_ok(#[trigger] pts@[k]),
                boundary.wf(),
                i < pts@.len(),
                i + 1 <= j <= pts@.len(),
                lines_ok(*lines),
                lines_ok(*new_lines),
                lines.separate(*new_lines),
                Index::grows(*old(lines), *lines),
                Index::same_shape(*old(lines), *lines),
                Index::grows(*old(new_lines), *new_lines),
                forall|i2: int, j2: int, k: int| 0 <= i2 < j2 < pts@.len() && (i2 < i || (i2 == i && j2 < j))
                    && 0 <= k < (opt_seq(axiom1_spec(pts@[i2], pts@[j2]))).len() ==> known(*lines, *new_lines, #[trigger] (opt_seq(axiom1_spec(pts@[i2], pts@[j2])))[k]),
                f == count1(pts@), n == pts@.len(),
                base == old(lines).total() + old(new_lines).total(),
                ok == (base + pair_sum(f, n, n) <= u64::MAX),
                forall|x: int, y: int| #[trigger] f(x, y) >= 0,
                ok ==> lines.total() + new_lines.total() == base + pair_sum(f, i as int, n) + row_sum(f, i as int, i + 1, j as int),
            decreases pts@.len() - j,
        {
            let ghost (l0, n0) = (*lines, *new_lines);
            let c: Vec<Line> = batch(axiom1(&pts[i], &pts[j]));
            assert(c@ == opt_seq(axiom1_spec(pts@[i as int], pts@[j as int])));
            proof {
                assert(c@.len() == f(i as int, j as int));
                lemma_row_sum_mono(f, i as int, i + 1, j + 1, n);
                lemma_pair_sum_mono(f, i + 1, n, n);
                lemma_pair_sum_mono(f, i as int, i as int, n);
            }
            offer(&c, lines, new_lines);
            proof {
                assert forall|i2: int, j2: int, k: int| 0 <= i2 < j2 < pts@.len() && (i2 < i || (i2 == i && j2 <= j))
                    && 0 <= k < (opt_seq(axiom1_spec(pts@[i2], pts@[j2]))).len() implies known(*lines, *new_lines, #[trigger] (opt_seq(axiom1_spec(pts@[i2], pts@[j2])))[k]) by {
                    if i2 < i || j2 < j {
                        lemma_known_grows(l0, n0, *lines, *new_lines, (opt_seq(axiom1_spec(pts@[i2], pts@[j2])))[k]);
                    }
                }
            }
            j = j + 1;
        }
        proof {
            lemma_row_sum_mono(f, i as int, i + 1, i + 1, n);
        }
        i = i + 1;
    }
}

/// Axiom 2 over every pair of points; each resulting line is counted or added.
pub fn compute_axiom2(pts: &Vec<Vector>, lines: &mut LineContainer, new_lines: &mut LineContainer, boundary: &Rect)
    requires
        forall|k: int| 0 <= k < pts@.len() ==> point_ok(#[trigger] pts@[k]),
        lines_ok(*old(lines)),
        lines_ok(*old(new_lines)),
        old(lines).separate(*old(new_lines)),
        boundary.wf(),
    ensures
        lines_ok(*final(lines)),
        lines_ok(*final(new_lines)),
        final(lines).separate(*final(new_lines)),
        Index::grows(*old(lines), *final(lines)),
        Index::same_shape(*old(lines), *final(lines)),
        Index::grows(*old(new_lines), *final(new_lines)),
        forall|i2: int, j2: int, k: int| 0 <= i2 < j2 < pts@.len() && 0 <= k < (opt_seq(axiom2_spec(pts@[i2], pts@[j2]))).len()
            ==> known(*final(lines), *final(new_lines), #[trigger] (opt_seq(axiom2_spec(pts@[i2], pts@[j2])))[k]),
        old(lines).total() + old(new_lines).total() + pair_sum(count2(pts@), pts@.len() as int, pts@.len() as int) <= u64::MAX
            ==> final(lines).total() + final(new_lines).total() == old(lines).total() + old(new_lines).total()
                + pair_sum(count2(pts@), pts@.len() as int, pts@.len() as int),
{
    let ghost f = count2(pts@);
    let ghost n = pts@.len() as int;
    let ghost base = old(lines).total() + old(new_lines).total();
    let ghost ok = base + pair_sum(f, n, n) <= u64::MAX;
    assert forall|x: int, y: int| #[trigger] f(x, y) >= 0 by {}
    let mut i: usize = 0;
    while i < pts.len()
        invariant
            forall|k: int| 0 <= k < pts@.len() ==> point_ok(#[trigger] pts@[k]),
            boundary.wf(),
            i <= pts@.len(),
            lines_ok(*lines),
            lines_ok(*new_lines),
            lines.separate(*new_lines),
            Index::grows(*old(lines), *lines),
            Index::same_shape(*old(lines), *lines),
            Index::grows(*old(new_lines), *new_lines),
            forall|i2: int, j2: int, k: int| 0 <= i2 < j2 < pts@.len() && i2 < i && 0 <= k < (opt_seq(axiom2_spec(pts@[i2], pts@[j2]))).len()
                ==> known(*lines, *new_lines, #[trigger] (opt_seq(axiom2_spec(pts@[i2], pts@[j2])))[k]),
            f == count2(pts@), n == pts@.len(),
            base == old(lines).total() + old(new_lines).total(),
            ok == (base + pair_sum(f, n, n) <= u64::MAX),
            forall|x: int, y: int| #[trigger] f(x, y) >= 0,
            ok ==> lines.total() + new_lines.total() == base + pair_sum(f, i as int, n),
        decreases pts@.len() - i,
    {
        let mut j: usize = i + 1;
        while j < pts.len()
            invariant
                forall|k: int| 0 <= k < pts@.len() ==> point_ok(#[trigger] pts@[k]),
                boundary.wf(),
                i < pts@.len(),
                i + 1 <= j <= pts@.len(),
                lines_ok(*lines),
                lines_ok(*new_lines),
                lines.separate(*new_lines),
                Index::grows(*old(lines), *lines),
                Index::same_shape(*old(lines), *lines),
                Index::grows(*old(new_lines), *new_lines),
                forall|i2: int, j2: int, k: int| 0 <= i2 < j2 < pts@.len() && (i2 < i || (i2 == i && j2 < j))
                    && 0 <= k < (opt_seq(axiom2_spec(pts@[i2], pts@[j2]))).len() ==> known(*lines, *new_lines, #[trigger] (opt_seq(axiom2_spec(pts@[i2], pts@[j2])))[k]),
                f == count2(pts@), n == pts@.len(),
                base == old(lines).total() + old(new_lines).total(),
                ok == (base + pair_sum(f, n, n) <= u64::MAX),
                forall|x: int, y: int| #[trigger] f(x, y) >= 0,
                ok ==> lines.total() + new_lines.total() == base + pair_sum(f, i as int, n) + row_sum(f, i as int, i + 1, j as int),
            decreases pts@.len() - j,
        {
            let ghost (l0, n0) = (*lines, *new_lines);
            let c: Vec<Line> = batch(axiom2(&pts[i], &pts[j]));
            assert(c@ == opt_seq(axiom2_spec(pts@[i as int], pts@[j as int])));
            proof {
                assert(c@.len() == f(i as int, j as int));
                lemma_row_sum_mono(f, i as int, i + 1, j + 1, n);
                lemma_pair_sum_mono(f, i + 1, n, n);
                lemma_pair_sum_mono(f, i as int, i as int, n);
            }
            offer(&c, lines, new_lines);
            proof {
                assert forall|i2: int, j2: int, k: int| 0 <= i2 < j2 < pts@.len() && (i2 < i || (i2 == i && j2 <= j))
                    && 0 <= k < (opt_seq(axiom2_spec(pts@[i2], pts@[j2]))).len() implies known(*lines, *new_lines, #[trigger] (opt_seq(axiom2_spec(pts@[i2], pts@[j2])))[k]) by {
                    if i2 < i || j2 < j {
                        lemma_known_grows(l0, n0, *lines, *new_lines, (opt_seq(axiom2_spec(pts@[i2], pts@[j2])))[k]);
                    }
                }
            }
            j = j + 1;
        }
        proof {
            lemma_row_sum_mono(f, i as int, i + 1, i + 1, n);
        }
        i = i + 1;
    }
}

/// Axiom 3 over every pair of lines; each resulting line is counted or added.
pub fn compute_axiom3(pts: &Vec<Line>, lines: &mut LineContainer, new_lines: &mut LineContainer, boundary: &Rect)
    requires
        all_wf(pts@),
        lines_ok(*old(lines)),
        lines_ok(*old(new_lines)),
        old(lines).separate(*old(new_lines)),
        boundary.wf(),
    ensures
        lines_ok(*final(lines)),
        lines_ok(*final(new_lines)),
        final(lines).separate(*final(new_lines)),
        Index::grows(*old(lines), *final(lines)),
        Index::same_shape(*old(lines), *final(lines)),
        Index::grows(*old(new_lines), *final(new_lines)),
        forall|i2: int, j2: int, k: int| 0 <= i2 < j2 < pts@.len() && 0 <= k < (axiom3_spec(pts@[i2], pts@[j2])).len()
            ==> known(*final(lines), *final(new_lines), #[trigger] (axiom3_spec(pts@[i2], pts@[j2]))[k]),
{
    let mut i: usize = 0;
    while i < pts.len()
        invariant
            all_wf(pts@),
            boundary.wf(),
            i <= pts@.len(),
            lines_ok(*lines),
            lines_ok(*new_lines),
            lines.separate(*new_lines),
            Index::grows(*old(lines), *lines),
            Index::same_shape(*old(lines), *lines),
            Index::grows(*old(new_lines), *new_lines),
            forall|i2: int, j2: int, k: int| 0 <= i2 < j2 < pts@.len() && i2 < i && 0 <= k < (axiom3_spec(pts@[i2], pts@[j2])).len()
                ==> known(*lines, *new_lines, #[trigger] (axiom3_spec(pts@[i2], pts@[j2]))[k]),
        decreases pts@.len() - i,
    {
        let mut j: usize = i + 1;
        while j < pts.len()
            invariant
                all_wf(pts@),
                boundary.wf(),
                i < pts@.len(),
                i + 1 <= j <= pts@.len(),
                lines_ok(*lines),
                lines_ok(*new_lines),
                lines.separate(*new_lines),
                Index::grows(*old(lines), *lines),
                Index::same_shape(*old(lines), *lines),
                Index::grows(*old(new_lines), *new_lines),
                forall|i2: int, j2: int, k: int| 0 <= i2 < j2 < pts@.len() && (i2 < i || (i2 == i && j2 < j))
                    && 0 <= k < (axiom3_spec(pts@[i2], pts@[j2])).len() ==> known(*lines, *new_lines, #[trigger] (axiom3_spec(pts@[i2], pts@[j2]))[k]),
            decreases pts@.len() - j,
        {
            let ghost (l0, n0) = (*lines, *new_lines);
            let c: Vec<Line> = axiom3(&pts[i], &pts[j], boundary);
            assert(c@ == axiom3_spec(pts@[i as int], pts@[j as int]));
            offer(&c, lines, new_lines);
            proof {
                assert forall|i2: int, j2: int, k: int| 0 <= i2 < j2 < pts@.len() && (i2 < i || (i2 == i && j2 <= j))
                    && 0 <= k < (axiom3_spec(pts@[i2], pts@[j2])).len() implies known(*lines, *new_lines, #[trigger] (axiom3_spec(pts@[i2], pts@[j2]))[k]) by {
                    if i2 < i || j2 < j {
                        lemma_known_grows(l0, n0, *lines, *new_lines, (axiom3_spec(pts@[i2], pts@[j2]))[k]);
                    }
                }
            }
            j = j + 1;
        }
        i = i + 1;
    }
}

/// Axiom 4 over every point and line; each resulting line is counted or added.
pub fn compute_axiom4(pts: &Vec<Vector>, lns: &Vec<Line>, lines: &mut LineContainer, new_lines: &mut LineContainer, boundary: &Rect)
    requires
        forall|k: int| 0 <= k < pts@.len() ==> point_ok(#[trigger] pts@[k]),
        all_wf(lns@),
        lines_ok(*old(lines)),
        lines_ok(*old(new_lines)),
        old(lines).separate(*old(new_lines)),
        boundary.wf(),
    ensures
        lines_ok(*final(lines)),
        lines_ok(*final(new_lines)),
        final(lines).separate(*final(new_lines)),
        Index::grows(*old(lines), *final(lines)),
        Index::same_shape(*old(lines), *final(lines)),
        Index::grows(*old(new_lines), *final(new_lines)),
        forall|i2: int, j2: int, k: int| 0 <= i2 < pts@.len() && 0 <= j2 < lns@.len() && 0 <= k < (axiom4_spec(pts@[i2], lns@[j2], *boundary)).len()
            ==> known(*final(lines), *final(new_lines), #[trigger] (axiom4_spec(pts@[i2], lns@[j2], *boundary))[k]),
{
    let mut i: usize = 0;
    while i < pts.len()
        invariant
            forall|k: int| 0 <= k < pts@.len() ==> point_ok(#[trigger] pts@[k]),
        all_wf(lns@),
            boundary.wf(),
            i <= pts@.len(),
            lines_ok(*lines),
            lines_ok(*new_lines),
            lines.separate(*new_lines),
            Index::grows(*old(lines), *lines),
            Index::same_shape(*old(lines), *lines),
            Index::grows(*old(new_lines), *new_lines),
            forall|i2: int, j2: int, k: int| 0 <= i2 < pts@.len() && 0 <= j2 < lns@.len() && i2 < i && 0 <= k < (axiom4_spec(pts@[i2], lns@[j2], *boundary)).len()
                ==> known(*lines, *new_lines, #[trigger] (axiom4_spec(pts@[i2], lns@[j2], *boundary))[k]),
        decreases pts@.len() - i,
    {
        let mut j: usize = 0;
        while j < lns.len()
            invariant
                forall|k: int| 0 <= k < pts@.len() ==> point_ok(#[trigger] pts@[k]),
        all_wf(lns@),
                boundary.wf(),
                i < pts@.len(),
                0 <= j <= lns@.len(),
                lines_ok(*lines),
                lines_ok(*new_lines),
                lines.separate(*new_lines),
                Index::grows(*old(lines), *lines),
                Index::same_shape(*old(lines), *lines),
                Index::grows(*old(new_lines), *new_lines),
                forall|i2: int, j2: int, k: int| 0 <= i2 < pts@.len() && 0 <= j2 < lns@.len() && (i2 < i || (i2 == i && j2 < j))
                    && 0 <= k < (axiom4_spec(pts@[i2], lns@[j2], *boundary)).len() ==> known(*lines, *new_lines, #[trigger] (axiom4_spec(pts@[i2], lns@[j2], *boundary))[k]),
            decreases lns@.len() - j,
        {
            let ghost (l0, n0) = (*lines, *new_lines);
            let c: Vec<Line> = axiom4(&pts[i], &lns[j], boundary);
            assert(c@ == axiom4_spec(pts@[i as int], lns@[j as int], *boundary));
            offer(&c, lines, new_lines);
            proof {
                assert forall|i2: int, j2: int, k: int| 0 <= i2 < pts@.len() && 0 <= j2 < lns@.len() && (i2 < i || (i2 == i && j2 <= j))
                    && 0 <= k < (axiom4_spec(pts@[i2], lns@[j2], *boundary)).len() implies known(*lines, *new_lines, #[trigger] (axiom4_spec(pts@[i2], lns@[j2], *boundary))[k]) by {
                    if i2 < i || j2 < j {
                        lemma_known_grows(l0, n0, *lines, *new_lines, (axiom4_spec(pts@[i2], lns@[j2], *boundary))[k]);
                    }
                }
            }
            j = j + 1;
        }
        i = i + 1;
    }
}

/// Axiom 5 over every ordered pair of distinct points and every line; each resulting line
/// is counted or added.
pub fn compute_axiom5(pts: &Vec<Vector>, lns: &Vec<Line>, lines: &mut LineContainer, new_lines: &mut LineContainer, boundary: &Rect)
    requires
        forall|q: int| 0 <= q < pts@.len() ==> point_ok(#[trigger] pts@[q]),
        all_wf(lns@),
        lines_ok(*old(lines)),
        lines_ok(*old(new_lines)),
        old(lines).separate(*old(new_lines)),
        boundary.wf(),
    ensures
        lines_ok(*final(lines)),
        lines_ok(*final(new_lines)),
        final(lines).separate(*final(new_lines)),
        Index::grows(*old(lines), *final(lines)),
        Index::same_shape(*old(lines), *final(lines)),
        Index::grows(*old(new_lines), *final(new_lines)),
        forall|i2: int, j2: int, k2: int, t: int| 0 <= i2 < pts@.len() && 0 <= j2 < pts@.len() && 0 <= k2 < lns@.len() && i2 != j2 && 0 <= t < (axiom5_spec(pts@[i2], pts@[j2], lns@[k2], *boundary)).len()
            ==> known(*final(lines), *final(new_lines), #[trigger] (axiom5_spec(pts@[i2], pts@[j2], lns@[k2], *boundary))[t]),
{
    let mut i: usize = 0;
    while i < pts.len()
        invariant
            forall|q: int| 0 <= q < pts@.len() ==> point_ok(#[trigger] pts@[q]),
            all_wf(lns@),
            boundary.wf(),
            lines_ok(*lines),
            lines_ok(*new_lines),
            lines.separate(*new_lines),
            Index::grows(*old(lines), *lines),
            Index::same_shape(*old(lines), *lines),
            Index::grows(*old(new_lines), *new_lines),
            i <= pts@.len(),
            forall|i2: int, j2: int, k2: int, t: int| 0 <= i2 < pts@.len() && 0 <= j2 < pts@.len() && 0 <= k2 < lns@.len() && i2 != j2 && i2 < i && 0 <= t < (axiom5_spec(pts@[i2], pts@[j2], lns@[k2], *boundary)).len()
                ==> known(*lines, *new_lines, #[trigger] (axiom5_spec(pts@[i2], pts@[j2], lns@[k2], *boundary))[t]),
        decreases pts@.len() - i,
    {
        let mut j: usize = 0;
        while j < pts.len()
            invariant
                forall|q: int| 0 <= q < pts@.len() ==> point_ok(#[trigger] pts@[q]),
            all_wf(lns@),
            boundary.wf(),
            lines_ok(*lines),
            lines_ok(*new_lines),
            lines.separate(*new_lines),
            Index::grows(*old(lines), *lines),
            Index::same_shape(*old(lines), *lines),
            Index::grows(*old(new_lines), *new_lines),
                i < pts@.len(),
                j <= pts@.len(),
                forall|i2: int, j2: int, k2: int, t: int| 0 <= i2 < pts@.len() && 0 <= j2 < pts@.len() && 0 <= k2 < lns@.len() && i2 != j2 && (i2 < i || (i2 == i && j2 < j)) && 0 <= t < (axiom5_spec(pts@[i2], pts@[j2], lns@[k2], *boundary)).len()
                    ==> known(*lines, *new_lines, #[trigger] (axiom5_spec(pts@[i2], pts@[j2], lns@[k2], *boundary))[t]),
            decreases pts@.len() - j,
        {
            let mut k: usize = 0;
            while k < lns.len()
                invariant
                    forall|q: int| 0 <= q < pts@.len() ==> point_ok(#[trigger] pts@[q]),
            all_wf(lns@),
            boundary.wf(),
            lines_ok(*lines),
            lines_ok(*new_lines),
            lines.separate(*new_lines),
            Index::grows(*old(lines), *lines),
            Index::same_shape(*old(lines), *lines),
            Index::grows(*old(new_lines), *new_lines),
                    i < pts@.len(),
                    j < pts@.len(),
                    k <= lns@.len(),
                    forall|i2: int, j2: int, k2: int, t: int| 0 <= i2 < pts@.len() && 0 <= j2 < pts@.len() && 0 <= k2 < lns@.len() && i2 != j2 && (i2 < i || (i2 == i && (j2 < j || (j2 == j && k2 < k)))) && 0 <= t < (axiom5_spec(pts@[i2], pts@[j2], lns@[k2], *boundary)).len()
                        ==> known(*lines, *new_lines, #[trigger] (axiom5_spec(pts@[i2], pts@[j2], lns@[k2], *boundary))[t]),
                decreases lns@.len() - k,
            {
                let ghost (l0, n0) = (*lines, *new_lines);
                if i != j {
                    let c: Vec<Line> = axiom5(&pts[i], &pts[j], &lns[k], boundary);
                    assert(c@ == axiom5_spec(pts@[i as int], pts@[j as int], lns@[k as int], *boundary));
                    offer(&c, lines, new_lines);
                }
                proof {
                    assert forall|i2: int, j2: int, k2: int, t: int| 0 <= i2 < pts@.len() && 0 <= j2 < pts@.len() && 0 <= k2 < lns@.len() && i2 != j2 && (i2 < i || (i2 == i && (j2 < j || (j2 == j && k2 <= k)))) && 0 <= t < (axiom5_spec(pts@[i2], pts@[j2], lns@[k2], *boundary)).len()
                        implies known(*lines, *new_lines, #[trigger] (axiom5_spec(pts@[i2], pts@[j2], lns@[k2], *boundary))[t]) by {
                        if i2 < i || j2 < j || k2 < k {
                            lemma_known_grows(l0, n0, *lines, *new_lines, (axiom5_spec(pts@[i2], pts@[j2], lns@[k2], *boundary))[t]);
                        }
                    }
                }
                k = k + 1;
            }
            j = j + 1;
        }
        i = i + 1;
    }
}

/// Axiom 7 over every point and ordered pair of distinct lines; each resulting line is
/// counted or added.
pub fn compute_axiom7(pts: &Vec<Vector>, lns: &Vec<Line>, lines: &mut LineContainer, new_lines: &mut LineContainer, boundary: &Rect)
    requires
        forall|q: int| 0 <= q < pts@.len() ==> point_ok(#[trigger] pts@[q]),
        all_wf(lns@),
        lines_ok(*old(lines)),
        lines_ok(*old(new_lines)),
        old(lines).separate(*old(new_lines)),
        boundary.wf(),
    ensures
        lines_ok(*final(lines)),
        lines_ok(*final(new_lines)),
        final(lines).separate(*final(new_lines)),
        Index::grows(*old(lines), *final(lines)),
        Index::same_shape(*old(lines), *final(lines)),
        Index::grows(*old(new_lines), *final(new_lines)),
        forall|i2: int, j2: int, k2: int, t: int| 0 <= i2 < pts@.len() && 0 <= j2 < lns@.len() && 0 <= k2 < lns@.len() && j2 != k2 && 0 <= t < (axiom7_spec(pts@[i2], lns@[j2], lns@[k2])).len()
            ==> known(*final(lines), *final(new_lines), #[trigger] (axiom7_spec(pts@[i2], lns@[j2], lns@[k2]))[t]),
{
    let mut i: usize = 0;
    while i < pts.len()
        invariant
            forall|q: int| 0 <= q < pts@.len() ==> point_ok(#[trigger] pts@[q]),
            all_wf(lns@),
            boundary.wf(),
            lines_ok(*lines),
            lines_ok(*new_lines),
            lines.separate(*new_lines),
            Index::grows(*old(lines), *lines),
            Index::same_shape(*old(lines), *lines),
            Index::grows(*old(new_lines), *new_lines),
            i <= pts@.len(),
            forall|i2: int, j2: int, k2: int, t: int| 0 <= i2 < pts@.len() && 0 <= j2 < lns@.len() && 0 <= k2 < lns@.len() && j2 != k2 && i2 < i && 0 <= t < (axiom7_spec(pts@[i2], lns@[j2], lns@[k2])).len()
                ==> known(*lines, *new_lines, #[trigger] (axiom7_spec(pts@[i2], lns@[j2], lns@[k2]))[t]),
        decreases pts@.len() - i,
    {
        let mut j: usize = 0;
        while j < lns.len()
            invariant
                forall|q: int| 0 <= q < pts@.len() ==> point_ok(#[trigger] pts@[q]),
            all_wf(lns@),
            boundary.wf(),
            lines_ok(*lines),
            lines_ok(*new_lines),
            lines.separate(*new_lines),
            Index::grows(*old(lines), *lines),
            Index::same_shape(*old(lines), *lines),
            Index::grows(*old(new_lines), *new_lines),
                i < pts@.len(),
                j <= lns@.len(),
                forall|i2: int, j2: int, k2: int, t: int| 0 <= i2 < pts@.len() && 0 <= j2 < lns@.len() && 0 <= k2 < lns@.len() && j2 != k2 && (i2 < i || (i2 == i && j2 < j)) && 0 <= t < (axiom7_spec(pts@[i2], lns@[j2], lns@[k2])).len()
                    ==> known(*lines, *new_lines, #[trigger] (axiom7_spec(pts@[i2], lns@[j2], lns@[k2]))[t]),
            decreases lns@.len() - j,
        {
            let mut k: usize = 0;
            while k < lns.len()
                invariant
                    forall|q: int| 0 <= q < pts@.len() ==> point_ok(#[trigger] pts@[q]),
            all_wf(lns@),
            boundary.wf(),
            lines_ok(*lines),
            lines_ok(*new_lines),
            lines.separate(*new_lines),
            Index::grows(*old(lines), *lines),
            Index::same_shape(*old(lines), *lines),
            Index::grows(*old(new_lines), *new_lines),
                    i < pts@.len(),
                    j < lns@.len(),
                    k <= lns@.len(),
                    forall|i2: int, j2: int, k2: int, t: int| 0 <= i2 < pts@.len() && 0 <= j2 < lns@.len() && 0 <= k2 < lns@.len() && j2 != k2 && (i2 < i || (i2 == i && (j2 < j || (j2 == j && k2 < k)))) && 0 <= t < (axiom7_spec(pts@[i2], lns@[j2], lns@[k2])).len()
                        ==> known(*lines, *new_lines, #[trigger] (axiom7_spec(pts@[i2], lns@[j2], lns@[k2]))[t]),
                decreases lns@.len() - k,
            {
                let ghost (l0, n0) = (*lines, *new_lines);
                if j != k {
                    let c: Vec<Line> = axiom7(&pts[i], &lns[j], &lns[k], boundary);
                    assert(c@ == axiom7_spec(pts@[i as int], lns@[j as int], lns@[k as int]));
                    offer(&c, lines, new_lines);
                }
                proof {
                    assert forall|i2: int, j2: int, k2: int, t: int| 0 <= i2 < pts@.len() && 0 <= j2 < lns@.len() && 0 <= k2 < lns@.len() && j2 != k2 && (i2 < i || (i2 == i && (j2 < j || (j2 == j && k2 <= k)))) && 0 <= t < (axiom7_spec(pts@[i2], lns@[j2], lns@[k2])).len()
                        implies known(*lines, *new_lines, #[trigger] (axiom7_spec(pts@[i2], lns@[j2], lns@[k2]))[t]) by {
                        if i2 < i || j2 < j || k2 < k {
                            lemma_known_grows(l0, n0, *lines, *new_lines, (axiom7_spec(pts@[i2], lns@[j2], lns@[k2]))[t]);
                        }
                    }
                }
                k = k + 1;
            }
            j = j + 1;
        }
        i = i + 1;
    }
}

/// Keeps `p` for this round when it lies inside the boundary and neither index holds an
/// equivalent point; otherwise counts it against the one that does.
pub fn add_point(p: &Vector, points: &mut QuadTree, round: &mut QuadTree, boundary: &Rect)
    requires
        fits(*p),
        boundary.wf(),
        points_ok(*old(points), *boundary),
        points_ok(*old(round), *boundary),
        old(points).separate(*old(round)),
    ensures
        points_ok(*final(points), *boundary),
        points_ok(*final(round), *boundary),
        final(points).separate(*final(round)),
        Index::grows(*old(points), *final(points)),
        Index::same_shape(*old(points), *final(points)),
        Index::grows(*old(round), *final(round)),
        !(point_ok(*p) && boundary.contains_spec(*p)) ==> *final(points) == *old(points) && *final(round) == *old(round),
        point_ok(*p) && boundary.contains_spec(*p) ==> final(points).has(*p) || final(round).has(*p),
{
    if !(-crate::axioms::REACH <= p.x && p.x <= crate::axioms::REACH && -crate::axioms::REACH <= p.y
        && p.y <= crate::axioms::REACH) {
        return;
    }
    if !boundary.contains(p) {
        return;
    }
    let ghost p0 = *points;
    if points.duplicate_check(p) {
        proof {
            crate::tree::lemma_same_shape_has(p0, *points);
            crate::tree::lemma_shape_separate(p0, *points, *round);
        }
        return;
    }
    proof {
        crate::tree::lemma_same_shape_has(p0, *points);
        crate::tree::lemma_shape_separate(p0, *points, *round);
    }
    let ghost r0 = *round;
    round.insert(p);
    proof {
        crate::tree::lemma_insert_separate(*points, r0, *round, *p);
        if !r0.has(*p) {
            let b = crate::tree::bucket_of(p.key_spec());
            <Vector as Entity>::lemma_same_refl(p);
            assert(round.valid(b, r0.cells()[b].len() as int));
        }
    }
}

/// The crossing of `a` and `b`, when it may be handed to an axiom and lies inside.
pub open spec fn kept_crossing(a: Line, b: Line, boundary: Rect) -> Option<Vector> {
    match a.intersect_spec(b) {
        Some(p) => if point_ok(p) && boundary.contains_spec(p) { Some(p) } else { None },
        None => None,
    }
}

/// `p` is known, to the history or to the current round.
pub open spec fn known_point(points: QuadTree, round: QuadTree, p: Vector) -> bool {
    points.has(p) || round.has(p)
}

/// A known point stays known as both indexes grow.
pub proof fn lemma_known_point_grows(p0: QuadTree, r0: QuadTree, p1: QuadTree, r1: QuadTree, x: Vector)
    requires
        known_point(p0, r0, x),
        Index::grows(p0, p1),
        Index::grows(r0, r1),
    ensures
        known_point(p1, r1, x),
{
    if p0.has(x) { lemma_has_grows(p0, p1, x); } else { lemma_has_grows(r0, r1, x); }
}

/// Number of new lines that are intersected with the others.
pub open spec fn row_count(n: int, max_rows: int) -> int {
    if n < max_rows { n } else { max_rows }
}

/// The crossings of the first `max_rows` new lines with the later new lines and with every
/// old line: each one inside the boundary is counted against the history or against this
/// round, or added to this round, which is returned as a fresh index.
pub fn compute_intersections(
    points: &mut QuadTree,
    old_lines: &Vec<Line>,
    new_lines: &Vec<Line>,
    boundary: &Rect,
    max_rows: usize,
) -> (r: QuadTree)
    requires
        all_wf(old_lines@),
        all_wf(new_lines@),
        boundary.wf(),
        points_ok(*old(points), *boundary),
    ensures
        points_ok(*final(points), *boundary),
        points_ok(r, *boundary),
        final(points).separate(r),
        Index::grows(*old(points), *final(points)),
        Index::same_shape(*old(points), *final(points)),
        forall|i2: int, j2: int| 0 <= i2 < row_count(new_lines@.len() as int, max_rows as int)
            && i2 < j2 < new_lines@.len() && (#[trigger] kept_crossing(new_lines@[i2], new_lines@[j2], *boundary)) is Some
            ==> known_point(*final(points), r, kept_crossing(new_lines@[i2], new_lines@[j2], *boundary)->0),
        forall|i2: int, k2: int| 0 <= i2 < row_count(new_lines@.len() as int, max_rows as int)
            && 0 <= k2 < old_lines@.len() && (#[trigger] kept_crossing(new_lines@[i2], old_lines@[k2], *boundary)) is Some
            ==> known_point(*final(points), r, kept_crossing(new_lines@[i2], old_lines@[k2], *boundary)->0),
{
    let mut round: QuadTree = Index::new();
    let mut i: usize = 0;
    while i < new_lines.len() && i < max_rows
        invariant
            all_wf(old_lines@),
            all_wf(new_lines@),
            boundary.wf(),
            points_ok(*points, *boundary),
            points_ok(round, *boundary),
            points.separate(round),
            Index::grows(*old(points), *points),
            Index::same_shape(*old(points), *points),
            i <= row_count(new_lines@.len() as int, max_rows as int),
            forall|i2: int, j2: int| 0 <= i2 < i && i2 < j2 < new_lines@.len()
                && (#[trigger] kept_crossing(new_lines@[i2], new_lines@[j2], *boundary)) is Some
                ==> known_point(*points, round, kept_crossing(new_lines@[i2], new_lines@[j2], *boundary)->0),
            forall|i2: int, k2: int| 0 <= i2 < i && 0 <= k2 < old_lines@.len()
                && (#[trigger] kept_crossing(new_lines@[i2], old_lines@[k2], *boundary)) is Some
                ==> known_point(*points, round, kept_crossing(new_lines@[i2], old_lines@[k2], *boundary)->0),
        decreases new_lines@.len() - i,
    {
        let a: &Line = &new_lines[i];
        assert(a.wf());
        let mut j: usize = i + 1;
        while j < new_lines.len()
            invariant
                all_wf(old_lines@),
                all_wf(new_lines@),
                i < new_lines@.len(),
                *a == new_lines@[i as int],
                a.wf(),
                boundary.wf(),
                points_ok(*points, *boundary),
                points_ok(round, *boundary),
                points.separate(round),
                Index::grows(*old(points), *points),
                Index::same_shape(*old(points), *points),
                i + 1 <= j <= new_lines@.len(),
                forall|i2: int, j2: int| 0 <= i2 < new_lines@.len() && i2 < j2 < new_lines@.len() && (i2 < i || (i2 == i && j2 < j))
                    && (#[trigger] kept_crossing(new_lines@[i2], new_lines@[j2], *boundary)) is Some
                    ==> known_point(*points, round, kept_crossing(new_lines@[i2], new_lines@[j2], *boundary)->0),
                forall|i2: int, k2: int| 0 <= i2 < i && 0 <= k2 < old_lines@.len()
                    && (#[trigger] kept_crossing(new_lines@[i2], old_lines@[k2], *boundary)) is Some
                    ==> known_point(*points, round, kept_crossing(new_lines@[i2], old_lines@[k2], *boundary)->0),
            decreases new_lines@.len() - j,
        {
            assert(new_lines@[j as int].wf());
            let ghost (p0, r0) = (*points, round);
            match a.intersect(&new_lines[j]) {
                Some(p) => { add_point(&p, points, &mut round, boundary); },
                None => {},
            }
            proof {
                assert forall|i2: int, j2: int| 0 <= i2 < new_lines@.len() && i2 < j2 < new_lines@.len() && (i2 < i || (i2 == i && j2 <= j))
                    && (#[trigger] kept_crossing(new_lines@[i2], new_lines@[j2], *boundary)) is Some
                    implies known_point(*points, round, kept_crossing(new_lines@[i2], new_lines@[j2], *boundary)->0) by {
                    if i2 < i || j2 < j {
                        lemma_known_point_grows(p0, r0, *points, round, kept_crossing(new_lines@[i2], new_lines@[j2], *boundary)->0);
                    }
                }
                assert forall|i2: int, k2: int| 0 <= i2 < i && 0 <= k2 < old_lines@.len()
                    && (#[trigger] kept_crossing(new_lines@[i2], old_lines@[k2], *boundary)) is Some
                    implies known_point(*points, round, kept_crossing(new_lines@[i2], old_lines@[k2], *boundary)->0) by {
                    lemma_known_point_grows(p0, r0, *points, round, kept_crossing(new_lines@[i2], old_lines@[k2], *boundary)->0);
                }
            }
            j = j + 1;
        }
        let mut k: usize = 0;
        while k < old_lines.len()
            invariant
                all_wf(old_lines@),
                all_wf(new_lines@),
                i < new_lines@.len(),
                *a == new_lines@[i as int],
                a.wf(),
                boundary.wf(),
                points_ok(*points, *boundary),
                points_ok(round, *boundary),
                points.separate(round),
                Index::grows(*old(points), *points),
                Index::same_shape(*old(points), *points),
                k <= old_lines@.len(),
                forall|i2: int, j2: int| 0 <= i2 <= i && i2 < j2 < new_lines@.len()
                    && (#[trigger] kept_crossing(new_lines@[i2], new_lines@[j2], *boundary)) is Some
                    ==> known_point(*points, round, kept_crossing(new_lines@[i2], new_lines@[j2], *boundary)->0),
                forall|i2: int, k2: int| 0 <= k2 < old_lines@.len() && (i2 < i || (i2 == i && k2 < k)) && 0 <= i2
                    && (#[trigger] kept_crossing(new_lines@[i2], old_lines@[k2], *boundary)) is Some
                    ==> known_point(*points, round, kept_crossing(new_lines@[i2], old_lines@[k2], *boundary)->0),
            decreases old_lines@.len() - k,
        {
            assert(old_lines@[k as int].wf());
            let ghost (p0, r0) = (*points, round);
            match a.intersect(&old_lines[k]) {
                Some(p) => { add_point(&p, points, &mut round, boundary); },
                None => {},
            }
            proof {
                assert forall|i2: int, j2: int| 0 <= i2 <= i && i2 < j2 < new_lines@.len()
                    && (#[trigger] kept_crossing(new_lines@[i2], new_lines@[j2], *boundary)) is Some
                    implies known_point(*points, round, kept_crossing(new_lines@[i2], new_lines@[j2], *boundary)->0) by {
                    lemma_known_point_grows(p0, r0, *points, round, kept_crossing(new_lines@[i2], new_lines@[j2], *boundary)->0);
                }
                assert forall|i2: int, k2: int| 0 <= k2 < old_lines@.len() && (i2 < i || (i2 == i && k2 <= k)) && 0 <= i2
                    && (#[trigger] kept_crossing(new_lines@[i2], old_lines@[k2], *boundary)) is Some
                    implies known_point(*points, round, kept_crossing(new_lines@[i2], old_lines@[k2], *boundary)->0) by {
                    if i2 < i || k2 < k {
                        lemma_known_point_grows(p0, r0, *points, round, kept_crossing(new_lines@[i2], old_lines@[k2], *boundary)->0);
                    }
                }
            }
            k = k + 1;
        }
        i = i + 1;
    }
    round
}

/// The lines that `new` holds beyond `old`: in each bucket, the entries past the old ones.
pub open spec fn added_lines(old: LineContainer, new: LineContainer) -> Seq<Line> {
    values(flat_upto(
        Seq::new(new.cells().len(), |b: int| new.cells()[b].subrange(old.cells()[b].len() as int, new.cells()[b].len() as int)),
        new.cells().len() as int,
    ))
}

/// Every kept crossing of the first `max_rows` lines of `fresh` with the later ones and with
/// every line of `olds` is held by `points` up to equivalence.
pub open spec fn crossings_held(points: QuadTree, fresh: Seq<Line>, olds: Seq<Line>, boundary: Rect, max_rows: int) -> bool {
    &&& forall|i2: int, j2: int| 0 <= i2 < row_count(fresh.len() as int, max_rows) && i2 < j2 < fresh.len()
        && (#[trigger] kept_crossing(fresh[i2], fresh[j2], boundary)) is Some
        ==> points.has(kept_crossing(fresh[i2], fresh[j2], boundary)->0)
    &&& forall|i2: int, k2: int| 0 <= i2 < row_count(fresh.len() as int, max_rows) && 0 <= k2 < olds.len()
        && (#[trigger] kept_crossing(fresh[i2], olds[k2], boundary)) is Some
        ==> points.has(kept_crossing(fresh[i2], olds[k2], boundary)->0)
}

/// The first `limit` values of `s`, or all of them.
pub open spec fn first<T>(s: Seq<T>, limit: int) -> Seq<T> {
    s.take(if limit < s.len() { limit } else { s.len() as int })
}

/// Every line that the axioms make from the snapshot `pts`, `lns`, and every line of `extra`,
/// is held by `lines` up to equivalence.
pub open spec fn round_lines_known(lines: LineContainer, pts: Seq<Vector>, lns: Seq<Line>, boundary: Rect, extra: Seq<Line>) -> bool {
    &&& forall|i2: int, j2: int, t: int| 0 <= i2 < j2 < pts.len() && 0 <= t < (opt_seq(axiom1_spec(pts[i2], pts[j2]))).len()
        ==> lines.has(#[trigger] (opt_seq(axiom1_spec(pts[i2], pts[j2])))[t])
    &&& forall|i2: int, j2: int, t: int| 0 <= i2 < j2 < pts.len() && 0 <= t < (opt_seq(axiom2_spec(pts[i2], pts[j2]))).len()
        ==> lines.has(#[trigger] (opt_seq(axiom2_spec(pts[i2], pts[j2])))[t])
    &&& forall|i2: int, j2: int, t: int| 0 <= i2 < j2 < lns.len() && 0 <= t < (axiom3_spec(lns[i2], lns[j2])).len()
        ==> lines.has(#[trigger] (axiom3_spec(lns[i2], lns[j2]))[t])
    &&& forall|i2: int, j2: int, t: int| 0 <= i2 < pts.len() && 0 <= j2 < lns.len() && 0 <= t < (axiom4_spec(pts[i2], lns[j2], boundary)).len()
        ==> lines.has(#[trigger] (axiom4_spec(pts[i2], lns[j2], boundary))[t])
    &&& forall|i2: int, j2: int, k2: int, t: int| 0 <= i2 < pts.len() && 0 <= j2 < pts.len() && 0 <= k2 < lns.len() && i2 != j2 && 0 <= t < (axiom5_spec(pts[i2], pts[j2], lns[k2], boundary)).len()
        ==> lines.has(#[trigger] (axiom5_spec(pts[i2], pts[j2], lns[k2], boundary))[t])
    &&& forall|i2: int, j2: int, k2: int, t: int| 0 <= i2 < pts.len() && 0 <= j2 < lns.len() && 0 <= k2 < lns.len() && j2 != k2 && 0 <= t < (axiom7_spec(pts[i2], lns[j2], lns[k2])).len()
        ==> lines.has(#[trigger] (axiom7_spec(pts[i2], lns[j2], lns[k2]))[t])
    &&& forall|t: int| 0 <= t < extra.len() ==> lines.has(#[trigger] extra[t])
}

/// A line known to the history or the round is held by the history once the round's lines
/// are all in it.
pub proof fn lemma_known_final(l: LineContainer, n: LineContainer, f: LineContainer, x: Line)
    requires
        known(l, n, x),
        Index::grows(l, f),
        forall|b: int, i: int| #[trigger] n.valid(b, i) ==> f.held(n.entry(b, i).0),
    ensures
        f.has(x),
{
    if l.has(x) {
        lemma_has_grows(l, f, x);
    } else {
        let (b, i) = choose|b: int, i: int| #[trigger] n.valid(b, i) && n.entry(b, i).0.same_spec(&x);
        assert(f.held(n.entry(b, i).0));
        let (fb, fi) = choose|fb: int, fi: int| #[trigger] f.valid(fb, fi) && f.entry(fb, fi).0 == n.entry(b, i).0;
    }
}

/// One generation from a given snapshot: the axioms over `pts` and `lns` (plus `extra`,
/// candidates made elsewhere, such as by axiom 6) fill a fresh line index, deduplicated against
/// the history; in rounds numbered below `config.point_rounds` the new lines are intersected
/// and the new points merged into the history. The round's lines are then appended to the
/// history: `add_candidate` admits a line to the round only when the history holds no
/// equivalent one.
pub fn round_from_snapshot(
    round: usize,
    pts: &Vec<Vector>,
    lns: &Vec<Line>,
    points: &mut QuadTree,
    lines: &mut LineContainer,
    boundary: &Rect,
    config: &RoundConfig,
    extra: &Vec<Line>,
)
    requires
        forall|q: int| 0 <= q < pts@.len() ==> point_ok(#[trigger] pts@[q]),
        all_wf(lns@),
        boundary.wf(),
        points_ok(*old(points), *boundary),
        lines_ok(*old(lines)),
        all_wf(extra@),
    ensures
        points_ok(*final(points), *boundary),
        lines_ok(*final(lines)),
        Index::grows(*old(points), *final(points)),
        Index::grows(*old(lines), *final(lines)),
        round >= config.point_rounds ==> *final(points) == *old(points),
        round_lines_known(*final(lines), pts@, lns@, *boundary, extra@),
        round < config.point_rounds ==> crossings_held(*final(points), added_lines(*old(lines), *final(lines)),
            values(old(lines).flat()), *boundary, config.max_rows as int),
        forall|k: int| 0 <= k < added_lines(*old(lines), *final(lines)).len()
            ==> !old(lines).has(#[trigger] added_lines(*old(lines), *final(lines))[k]),
        forall|b: int| 0 <= b < old(lines).cells().len() ==> values(#[trigger] final(lines).cells()[b]
            .subrange(0, old(lines).cells()[b].len() as int)) == values(old(lines).cells()[b]),
{
    let mut new_lines: LineContainer = Index::new();
    compute_axiom1(pts, lines, &mut new_lines, boundary);
    let ghost (l_ln1, n_ln1) = (*lines, new_lines);
    compute_axiom2(pts, lines, &mut new_lines, boundary);
    let ghost (l_ln2, n_ln2) = (*lines, new_lines);
    compute_axiom3(lns, lines, &mut new_lines, boundary);
    let ghost (l_ln3, n_ln3) = (*lines, new_lines);
    compute_axiom4(pts, lns, lines, &mut new_lines, boundary);
    let ghost (l_ln4, n_ln4) = (*lines, new_lines);
    compute_axiom5(pts, lns, lines, &mut new_lines, boundary);
    let ghost (l_ln5, n_ln5) = (*lines, new_lines);
    compute_axiom7(pts, lns, lines, &mut new_lines, boundary);
    let ghost (l_ln7, n_ln7) = (*lines, new_lines);
    offer(extra, lines, &mut new_lines);
    let ghost (l_lnx, n_lnx) = (*lines, new_lines);
    let ghost (l_end, n_end) = (*lines, new_lines);
    if round < config.point_rounds {
        let fresh: Vec<Line> = new_lines.all_values();
        let known_lines: Vec<Line> = lines.all_values();
        proof {
            assert forall|k: int| 0 <= k < fresh@.len() implies (#[trigger] fresh@[k]).wf() by {
                crate::tree::lemma_flat_all(new_lines, wf_line(), k);
            }
            assert forall|k: int| 0 <= k < known_lines@.len() implies (#[trigger] known_lines@[k]).wf() by {
                crate::tree::lemma_flat_all(*lines, wf_line(), k);
            }
        }
        let new_points: QuadTree = compute_intersections(points, &known_lines, &fresh, boundary, config.max_rows);
        let ghost p_mid = *points;
        // `add_point` admits a point to the round only when the history holds no equivalent
        // one, so merging the round's points is appending them.
        points.append_from(&new_points);
        proof {
            crate::tree::lemma_append_distinct(p_mid, new_points, *points);
            lemma_grows_trans(*old(points), p_mid, *points);
            assert(fresh@ =~= values(new_lines.flat()));
            lemma_same_shape_values(*old(lines), *lines, BUCKETS as int);
            assert(known_lines@ =~= values(old(lines).flat()));
            let fr = fresh@;
            let ol = known_lines@;
            let mr = config.max_rows as int;
            assert forall|i2: int, j2: int| 0 <= i2 < row_count(fr.len() as int, mr) && i2 < j2 < fr.len()
                && (#[trigger] kept_crossing(fr[i2], fr[j2], *boundary)) is Some
                implies points.has(kept_crossing(fr[i2], fr[j2], *boundary)->0) by {
                lemma_has_after_append(p_mid, new_points, *points, kept_crossing(fr[i2], fr[j2], *boundary)->0);
            }
            assert forall|i2: int, k2: int| 0 <= i2 < row_count(fr.len() as int, mr) && 0 <= k2 < ol.len()
                && (#[trigger] kept_crossing(fr[i2], ol[k2], *boundary)) is Some
                implies points.has(kept_crossing(fr[i2], ol[k2], *boundary)->0) by {
                lemma_has_after_append(p_mid, new_points, *points, kept_crossing(fr[i2], ol[k2], *boundary)->0);
            }
            assert(crossings_held(*points, values(new_lines.flat()), values(old(lines).flat()), *boundary, mr));
        }
        assert(points.all(inside(*boundary)));
    }
    let ghost l_pre = *lines;
    lines.append_from(&new_lines);
    assert(lines.all(wf_line()));
    proof {
        crate::tree::lemma_append_distinct(l_pre, new_lines, *lines);
        assert forall|b: int| 0 <= b < lines.cells().len() implies
            lines.cells()[b].subrange(old(lines).cells()[b].len() as int, lines.cells()[b].len() as int)
                == new_lines.cells()[b] by {
            assert(values(l_pre.cells()[b]) == values(old(lines).cells()[b]));
            assert(values(l_pre.cells()[b]).len() == l_pre.cells()[b].len());
            assert(lines.cells()[b].subrange(old(lines).cells()[b].len() as int, lines.cells()[b].len() as int)
                =~= new_lines.cells()[b]);
        }
        assert(Seq::new(lines.cells().len(), |b: int| lines.cells()[b].subrange(old(lines).cells()[b].len() as int,
            lines.cells()[b].len() as int)) =~= new_lines.cells());
        assert(added_lines(*old(lines), *lines) == values(new_lines.flat()));
        crate::tree::lemma_same_shape_has(*old(lines), l_pre);
        assert forall|k: int| 0 <= k < added_lines(*old(lines), *lines).len()
            implies !old(lines).has(#[trigger] added_lines(*old(lines), *lines)[k]) by {
            crate::tree::lemma_flat_member(new_lines, BUCKETS as int, k);
            let (b, i) = choose|b: int, i: int| #[trigger] new_lines.valid(b, i)
                && flat_upto(new_lines.cells(), BUCKETS as int)[k] == new_lines.entry(b, i);
            assert(!l_pre.has(new_lines.entry(b, i).0));
        }
        assert forall|b: int| 0 <= b < old(lines).cells().len() implies values(#[trigger] lines.cells()[b]
            .subrange(0, old(lines).cells()[b].len() as int)) == values(old(lines).cells()[b]) by {
            assert(values(l_pre.cells()[b]).len() == l_pre.cells()[b].len());
            assert(lines.cells()[b].subrange(0, old(lines).cells()[b].len() as int) =~= l_pre.cells()[b]);
        }
        lemma_grows_trans(l_ln7, l_lnx, l_end);
        lemma_grows_trans(n_ln7, n_lnx, n_end);
        lemma_grows_trans(l_ln5, l_ln7, l_end);
        lemma_grows_trans(n_ln5, n_ln7, n_end);
        lemma_grows_trans(l_ln4, l_ln5, l_end);
        lemma_grows_trans(n_ln4, n_ln5, n_end);
        lemma_grows_trans(l_ln3, l_ln4, l_end);
        lemma_grows_trans(n_ln3, n_ln4, n_end);
        lemma_grows_trans(l_ln2, l_ln3, l_end);
        lemma_grows_trans(n_ln2, n_ln3, n_end);
        lemma_grows_trans(l_ln1, l_ln2, l_end);
        lemma_grows_trans(n_ln1, n_ln2, n_end);
        assert forall|i2: int, j2: int, t: int| 0 <= i2 < j2 < pts@.len() && 0 <= t < (opt_seq(axiom1_spec(pts@[i2], pts@[j2]))).len()
            implies lines.has(#[trigger] (opt_seq(axiom1_spec(pts@[i2], pts@[j2])))[t]) by {
            lemma_known_grows(l_ln1, n_ln1, l_end, n_end, (opt_seq(axiom1_spec(pts@[i2], pts@[j2])))[t]);
            lemma_known_final(l_end, n_end, *lines, (opt_seq(axiom1_spec(pts@[i2], pts@[j2])))[t]);
        }
        assert forall|i2: int, j2: int, t: int| 0 <= i2 < j2 < pts@.len() && 0 <= t < (opt_seq(axiom2_spec(pts@[i2], pts@[j2]))).len()
            implies lines.has(#[trigger] (opt_seq(axiom2_spec(pts@[i2], pts@[j2])))[t]) by {
            lemma_known_grows(l_ln2, n_ln2, l_end, n_end, (opt_seq(axiom2_spec(pts@[i2], pts@[j2])))[t]);
            lemma_known_final(l_end, n_end, *lines, (opt_seq(axiom2_spec(pts@[i2], pts@[j2])))[t]);
        }
        assert forall|i2: int, j2: int, t: int| 0 <= i2 < j2 < lns@.len() && 0 <= t < (axiom3_spec(lns@[i2], lns@[j2])).len()
            implies lines.has(#[trigger] (axiom3_spec(lns@[i2], lns@[j2]))[t]) by {
            lemma_known_grows(l_ln3, n_ln3, l_end, n_end, (axiom3_spec(lns@[i2], lns@[j2]))[t]);
            lemma_known_final(l_end, n_end, *lines, (axiom3_spec(lns@[i2], lns@[j2]))[t]);
        }
        assert forall|i2: int, j2: int, t: int| 0 <= i2 < pts@.len() && 0 <= j2 < lns@.len() && 0 <= t < (axiom4_spec(pts@[i2], lns@[j2], *boundary)).len()
            implies lines.has(#[trigger] (axiom4_spec(pts@[i2], lns@[j2], *boundary))[t]) by {
            lemma_known_grows(l_ln4, n_ln4, l_end, n_end, (axiom4_spec(pts@[i2], lns@[j2], *boundary))[t]);
            lemma_known_final(l_end, n_end, *lines, (axiom4_spec(pts@[i2], lns@[j2], *boundary))[t]);
        }
        assert forall|i2: int, j2: int, k2: int, t: int| 0 <= i2 < pts@.len() && 0 <= j2 < pts@.len() && 0 <= k2 < lns@.len() && i2 != j2 && 0 <= t < (axiom5_spec(pts@[i2], pts@[j2], lns@[k2], *boundary)).len()
            implies lines.has(#[trigger] (axiom5_spec(pts@[i2], pts@[j2], lns@[k2], *boundary))[t]) by {
            lemma_known_grows(l_ln5, n_ln5, l_end, n_end, (axiom5_spec(pts@[i2], pts@[j2], lns@[k2], *boundary))[t]);
            lemma_known_final(l_end, n_end, *lines, (axiom5_spec(pts@[i2], pts@[j2], lns@[k2], *boundary))[t]);
        }
        assert forall|i2: int, j2: int, k2: int, t: int| 0 <= i2 < pts@.len() && 0 <= j2 < lns@.len() && 0 <= k2 < lns@.len() && j2 != k2 && 0 <= t < (axiom7_spec(pts@[i2], lns@[j2], lns@[k2])).len()
            implies lines.has(#[trigger] (axiom7_spec(pts@[i2], lns@[j2], lns@[k2]))[t]) by {
            lemma_known_grows(l_ln7, n_ln7, l_end, n_end, (axiom7_spec(pts@[i2], lns@[j2], lns@[k2]))[t]);
            lemma_known_final(l_end, n_end, *lines, (axiom7_spec(pts@[i2], lns@[j2], lns@[k2]))[t]);
        }
        assert forall|t: int| 0 <= t < extra@.len() implies lines.has(#[trigger] extra@[t]) by {
            lemma_known_final(l_end, n_end, *lines, extra@[t]);
        }
    }
}

/// One generation on the accumulated state: the axioms see the first `config.max_points`
/// points and `config.max_lines` lines of the history, then `round_from_snapshot` runs.
pub fn make_round(
    round: usize,
    points: &mut QuadTree,
    lines: &mut LineContainer,
    boundary: &Rect,
    config: &RoundConfig,
    extra: &Vec<Line>,
)
    requires
        boundary.wf(),
        points_ok(*old(points), *boundary),
        lines_ok(*old(lines)),
        all_wf(extra@),
    ensures
        points_ok(*final(points), *boundary),
        lines_ok(*final(lines)),
        Index::grows(*old(points), *final(points)),
        Index::grows(*old(lines), *final(lines)),
        round >= config.point_rounds ==> *final(points) == *old(points),
        round_lines_known(*final(lines), first(values(old(points).flat()), config.max_points as int),
            first(values(old(lines).flat()), config.max_lines as int), *boundary, extra@),
        round < config.point_rounds ==> crossings_held(*final(points), added_lines(*old(lines), *final(lines)),
            values(old(lines).flat()), *boundary, config.max_rows as int),
        forall|k: int| 0 <= k < added_lines(*old(lines), *final(lines)).len()
            ==> !old(lines).has(#[trigger] added_lines(*old(lines), *final(lines))[k]),
        forall|b: int| 0 <= b < old(lines).cells().len() ==> values(#[trigger] final(lines).cells()[b]
            .subrange(0, old(lines).cells()[b].len() as int)) == values(old(lines).cells()[b]),
{
    let pts: Vec<Vector> = points.sample(config.max_points);
    let lns: Vec<Line> = lines.sample(config.max_lines);
    proof {
        assert forall|k: int| 0 <= k < pts@.len() implies point_ok(#[trigger] pts@[k]) by {
            lemma_held_all(*points, inside(*boundary), pts@[k]);
        }
        assert forall|k: int| 0 <= k < lns@.len() implies (#[trigger] lns@[k]).wf() by {
            lemma_held_all(*lines, wf_line(), lns@[k]);
        }
    }
    round_from_snapshot(round, &pts, &lns, points, lines, boundary, config, extra);
}

/// Entry `(b, i)` of `lines` clips to a segment, which `r` carries with its multiplicity.
pub open spec fn clipped_entry(lines: LineContainer, boundary: Rect, b: int, i: int, e: (Segment, u64)) -> bool {
    lines.valid(b, i) && boundary.clip_spec(lines.entry(b, i).0) == Some(e.0) && e.1 == lines.entry(b, i).1
}

/// `e` is the clipped segment of some held line, with its multiplicity.
pub open spec fn from_entry(lines: LineContainer, boundary: Rect, e: (Segment, u64)) -> bool {
    exists|b: int, i: int| clipped_entry(lines, boundary, b, i, e)
}

/// `r` carries the clipped segment of entry `(b, i)`.
pub open spec fn carried(r: Seq<(Segment, u64)>, lines: LineContainer, boundary: Rect, b: int, i: int) -> bool {
    exists|k: int| 0 <= k < r.len() && clipped_entry(lines, boundary, b, i, #[trigger] r[k])
}

/// Every held line that crosses the inside of the boundary, clipped to a segment, with its
/// multiplicity.
pub fn segments(lines: &LineContainer, boundary: &Rect) -> (r: Vec<(Segment, u64)>)
    requires
        lines_ok(*lines),
        boundary.wf(),
    ensures
        forall|k: int| 0 <= k < r@.len() ==> boundary.contains_spec((#[trigger] r@[k]).0.a)
            && boundary.contains_spec(r@[k].0.b),
        forall|k: int| 0 <= k < r@.len() ==> from_entry(*lines, *boundary, #[trigger] r@[k]),
        forall|b: int, i: int| #[trigger] lines.valid(b, i) && boundary.clip_spec(lines.entry(b, i).0) is Some
            ==> carried(r@, *lines, *boundary, b, i),
{
    let mut r: Vec<(Segment, u64)> = Vec::new();
    let mut b: usize = 0;
    while b < lines.buckets.len()
        invariant
            lines_ok(*lines),
            boundary.wf(),
            b <= lines.buckets@.len(),
            forall|k: int| 0 <= k < r@.len() ==> boundary.contains_spec((#[trigger] r@[k]).0.a)
                && boundary.contains_spec(r@[k].0.b),
            forall|k: int| 0 <= k < r@.len() ==> from_entry(*lines, *boundary, #[trigger] r@[k]),
            forall|bb: int, i: int| #[trigger] lines.valid(bb, i) && bb < b && boundary.clip_spec(lines.entry(bb, i).0) is Some
                ==> carried(r@, *lines, *boundary, bb, i),
        decreases lines.buckets@.len() - b,
    {
        let cell: &Vec<(Line, u64)> = &lines.buckets[b];
        let mut i: usize = 0;
        while i < cell.len()
            invariant
                lines_ok(*lines),
                boundary.wf(),
                b < lines.buckets@.len(),
                *cell == lines.buckets@[b as int],
                i <= cell@.len(),
                forall|k: int| 0 <= k < r@.len() ==> boundary.contains_spec((#[trigger] r@[k]).0.a)
                    && boundary.contains_spec(r@[k].0.b),
                forall|k: int| 0 <= k < r@.len() ==> from_entry(*lines, *boundary, #[trigger] r@[k]),
                forall|bb: int, j: int| #[trigger] lines.valid(bb, j) && (bb < b || (bb == b && j < i))
                    && boundary.clip_spec(lines.entry(bb, j).0) is Some
                    ==> carried(r@, *lines, *boundary, bb, j),
            decreases cell@.len() - i,
        {
            let e: (Line, u64) = cell[i];
            assert(lines.valid(b as int, i as int));
            assert(wf_line()(lines.entry(b as int, i as int).0));
            let ghost before = r@;
            match boundary.clip(&e.0) {
                Some(seg) => {
                    r.push((seg, e.1));
                    assert(clipped_entry(*lines, *boundary, b as int, i as int, r@[r@.len() - 1]));
                },
                None => {},
            }
            proof {
                assert forall|k: int| 0 <= k < r@.len() implies from_entry(*lines, *boundary, #[trigger] r@[k]) by {
                    if k < before.len() {
                        assert(r@[k] == before[k]);
                    }
                }
                assert forall|bb: int, j: int| #[trigger] lines.valid(bb, j) && (bb < b || (bb == b && j <= i))
                    && boundary.clip_spec(lines.entry(bb, j).0) is Some
                    implies carried(r@, *lines, *boundary, bb, j) by {
                    if bb < b || j < i {
                        assert(carried(before, *lines, *boundary, bb, j));
                        let k = choose|k: int| 0 <= k < before.len() && clipped_entry(*lines, *boundary, bb, j, #[trigger] before[k]);
                        assert(r@[k] == before[k]);
                    } else {
                        assert(clipped_entry(*lines, *boundary, bb, j, r@[r@.len() - 1]));
                    }
                }
            }
            i = i + 1;
        }
        b = b + 1;
    }
    r
}

/// Linear-scan duplicate test on a plain list: counts `line` once more against the first
/// equivalent entry, and says whether there was one.
pub fn duplicate_line_check(line: &Line, lines: &mut Vec<(Line, u64)>) -> (r: bool)
    ensures
        r == exists|k: int| 0 <= k < old(lines)@.len() && line.equivalent_spec((#[trigger] old(lines)@[k]).0),
        r ==> exists|k: int| 0 <= k < old(lines)@.len() && line.equivalent_spec((#[trigger] old(lines)@[k]).0)
            && (forall|j: int| 0 <= j < k ==> !line.equivalent_spec((#[trigger] old(lines)@[j]).0))
            && final(lines)@ == old(lines)@.update(k, (old(lines)@[k].0, crate::tree::bump(old(lines)@[k].1, 1))),
        !r ==> final(lines)@ == old(lines)@,
{
    let mut k: usize = 0;
    while k < lines.len()
        invariant
            k <= lines@.len(),
            *lines == *old(lines),
            forall|j: int| 0 <= j < k ==> !line.equivalent_spec((#[trigger] lines@[j]).0),
        decreases lines@.len() - k,
    {
        let e: (Line, u64) = lines[k];
        if line.equivalent(&e.0) {
            let n: u64 = if e.1 == u64::MAX { u64::MAX } else { e.1 + 1 };
            lines.set(k, (e.0, n));
            return true;
        }
        k = k + 1;
    }
    false
}

/// Linear-scan duplicate test on a plain list of points, as `duplicate_line_check`.
pub fn duplicate_point_check(point: &Vector, points: &mut Vec<(Vector, u64)>) -> (r: bool)
    ensures
        r == exists|k: int| 0 <= k < old(points)@.len() && point.equivalent_spec((#[trigger] old(points)@[k]).0),
        r ==> exists|k: int| 0 <= k < old(points)@.len() && point.equivalent_spec((#[trigger] old(points)@[k]).0)
            && (forall|j: int| 0 <= j < k ==> !point.equivalent_spec((#[trigger] old(points)@[j]).0))
            && final(points)@ == old(points)@.update(k, (old(points)@[k].0, crate::tree::bump(old(points)@[k].1, 1))),
        !r ==> final(points)@ == old(points)@,
{
    let mut k: usize = 0;
    while k < points.len()
        invariant
            k <= points@.len(),
            *points == *old(points),
            forall|j: int| 0 <= j < k ==> !point.equivalent_spec((#[trigger] points@[j]).0),
        decreases points@.len() - k,
    {
        let e: (Vector, u64) = points[k];
        if point.equivalent(&e.0) {
            let n: u64 = if e.1 == u64::MAX { u64::MAX } else { e.1 + 1 };
            points.set(k, (e.0, n));
            return true;
        }
        k = k + 1;
    }
    false
}

/// The state before the first round: the seed points that lie inside the boundary, and the
/// boundary's sides as lines.
pub fn initial_state(seeds: &Vec<Vector>, boundary: &Rect) -> (r: (QuadTree, LineContainer))
    requires
        boundary.wf(),
    ensures
        points_ok(r.0, *boundary),
        lines_ok(r.1),
        forall|k: int| 0 <= k < seeds@.len() && point_ok(#[trigger] seeds@[k]) && boundary.contains_spec(seeds@[k])
            ==> r.0.has(seeds@[k]),
        forall|k: int| 0 <= k < boundary.sides@.len() ==> r.1.has(#[trigger] boundary.sides@[k]),
{
    let mut points: QuadTree = Index::new();
    let mut spare: QuadTree = Index::new();
    let mut k: usize = 0;
    while k < seeds.len()
        invariant
            boundary.wf(),
            k <= seeds@.len(),
            points_ok(points, *boundary),
            points_ok(spare, *boundary),
            spare.cells() == crate::tree::empty_cells::<Vector>(),
            forall|j: int| 0 <= j < k && point_ok(#[trigger] seeds@[j]) && boundary.contains_spec(seeds@[j])
                ==> points.has(seeds@[j]),
        decreases seeds@.len() - k,
    {
        let p: Vector = seeds[k];
        if -crate::axioms::REACH <= p.x && p.x <= crate::axioms::REACH && -crate::axioms::REACH <= p.y
            && p.y <= crate::axioms::REACH && boundary.contains(&p) {
            let ghost p0 = points;
            points.insert(&p);
            proof {
                assert forall|j: int| 0 <= j <= k && point_ok(#[trigger] seeds@[j]) && boundary.contains_spec(seeds@[j])
                    implies points.has(seeds@[j]) by {
                    if j < k {
                        lemma_has_grows(p0, points, seeds@[j]);
                    } else if !p0.has(p) {
                        let b = crate::tree::bucket_of(p.key_spec());
                        <Vector as Entity>::lemma_same_refl(&p);
                        assert(points.valid(b, p0.cells()[b].len() as int));
                    } else {
                        lemma_has_grows(p0, points, p);
                    }
                }
            }
        }
        k = k + 1;
    }
    let mut lines: LineContainer = Index::new();
    let mut i: usize = 0;
    while i < boundary.sides.len()
        invariant
            boundary.wf(),
            i <= boundary.sides@.len(),
            lines_ok(lines),
            forall|j: int| 0 <= j < i ==> lines.has(#[trigger] boundary.sides@[j]),
        decreases boundary.sides@.len() - i,
    {
        let side: Line = boundary.sides[i];
        assert(side.wf());
        let ghost l0 = lines;
        lines.insert(&side);
        proof {
            assert forall|j: int| 0 <= j <= i implies lines.has(#[trigger] boundary.sides@[j]) by {
                if j < i {
                    lemma_has_grows(l0, lines, boundary.sides@[j]);
                } else if !l0.has(side) {
                    let b = crate::tree::bucket_of(side.key_spec());
                    <Line as Entity>::lemma_same_refl(&side);
                    assert(lines.valid(b, l0.cells()[b].len() as int));
                } else {
                    lemma_has_grows(l0, lines, side);
                }
            }
        }
        i = i + 1;
    }
    (points, lines)
}

/// Every point held by an index that the rounds maintain lies inside the boundary; since
/// `initial_state`, `compute_intersections` and `make_round` all keep `points_ok`, this holds of
/// every point ever merged into the history.
pub proof fn lemma_points_inside(points: QuadTree, boundary: Rect)
    requires
        points_ok(points, boundary),
    ensures
        forall|b: int, i: int| #[trigger] points.valid(b, i) ==> boundary.contains_spec(points.entry(b, i).0),
{
    assert forall|b: int, i: int| #[trigger] points.valid(b, i) implies boundary.contains_spec(points.entry(b, i).0) by {
        assert(inside(boundary)(points.entry(b, i).0));
    }
}

} // verus!
