use origami_axioms::arith::{SCALE, EPSILON};
use origami_axioms::axioms::{
    axiom1, axiom2, axiom3, axiom4, axiom5, axiom6_cubic, axiom6_from_roots, axiom7, polynomial_degree, Cubic,
};
use origami_axioms::checks::run_tests;
use origami_axioms::primitives::{Line, Vector};
use origami_axioms::round::{
    compute_axiom1, compute_axiom2, compute_axiom3, compute_axiom4, compute_axiom5, compute_axiom7,
    compute_intersections, default_config, duplicate_line_check, duplicate_point_check, initial_state,
    make_round, segments,
};
use origami_axioms::square::make_square;
use origami_axioms::tree::{Index, LineContainer, QuadTree};

fn ticks(a: f64) -> i64 {
    (a * SCALE as f64).round() as i64
}

fn v(x: f64, y: f64) -> Vector {
    Vector { x: ticks(x), y: ticks(y) }
}

fn line(ux: f64, uy: f64, d: f64) -> Line {
    Line { u: v(ux, uy), d: ticks(d) }
}

fn near(a: i64, b: i64, tol: i64) -> bool {
    (a - b).abs() <= tol
}

fn corners() -> Vec<Vector> {
    vec![v(0.0, 0.0), v(1.0, 0.0), v(1.0, 1.0), v(0.0, 1.0)]
}

/// Real roots of the cubic in ticks, by sign changes over [-4, 4] units refined by bisection.
fn scan_roots(c: &Cubic) -> Vec<i64> {
    let s = SCALE as f64;
    let f = |x: f64| ((c.a as f64 * x + c.b as f64) * x + c.c as f64) * x + c.d as f64;
    let mut roots = Vec::new();
    let steps = 800;
    for k in 0..steps {
        let mut lo = -4.0 + 8.0 * k as f64 / steps as f64;
        let mut hi = lo + 8.0 / steps as f64;
        if f(lo) == 0.0 {
            roots.push((lo * s).round() as i64);
            continue;
        }
        if (f(lo) < 0.0) == (f(hi) < 0.0) {
            continue;
        }
        for _ in 0..60 {
            let mid = (lo + hi) / 2.0;
            if (f(lo) < 0.0) == (f(mid) < 0.0) { lo = mid } else { hi = mid }
        }
        roots.push((lo * s).round() as i64);
    }
    roots
}

#[test]
fn make_axiom_tests() {
    let boundary = make_square();
    let (mut point_quadtree, mut line_container) = initial_state(&corners(), &boundary);
    let points = point_quadtree.sample(usize::MAX);
    let lines = line_container.sample(usize::MAX);
    let mut new_line_container: LineContainer = Index::new();
    compute_axiom1(&points, &mut line_container, &mut new_line_container, &boundary);
    compute_axiom2(&points, &mut line_container, &mut new_line_container, &boundary);
    compute_axiom3(&lines, &mut line_container, &mut new_line_container, &boundary);
    compute_axiom4(&points, &lines, &mut line_container, &mut new_line_container, &boundary);
    compute_axiom5(&points, &lines, &mut line_container, &mut new_line_container, &boundary);
    compute_axiom7(&points, &lines, &mut line_container, &mut new_line_container, &boundary);
    for (i, p1) in points.iter().enumerate() {
        for (j, p2) in points.iter().enumerate() {
            for (k, l1) in lines.iter().enumerate() {
                for (m, l2) in lines.iter().enumerate() {
                    if i == j || k == m {
                        continue;
                    }
                    if let Some(c) = axiom6_cubic(p1, p2, l1, l2) {
                        let roots = scan_roots(&c);
                        let found = axiom6_from_roots(p1, p2, l1, &roots, &boundary);
                        let batch: Vec<Line> = found;
                        for l in batch.iter() {
                            assert!(l.is_wf());
                        }
                        for l in batch.iter() {
                            if !line_container.duplicate_check(l) && !new_line_container.duplicate_check(l) {
                                new_line_container.push(l);
                            }
                        }
                    }
                }
            }
        }
    }
    let new_lines = new_line_container.sample(usize::MAX);
    let old_lines = line_container.sample(usize::MAX);
    let _new_points: QuadTree =
        compute_intersections(&mut point_quadtree, &old_lines, &new_lines, &boundary, 301);
}

#[test]
fn self_check_passes() {
    assert!(run_tests());
}

#[test]
fn axiom1_and_axiom2_values() {
    let u = v(2.0, 2.0);
    let w = v(1.2, -0.8);
    let a1 = axiom1(&u, &w).unwrap();
    assert!(near(a1.u.x, 961_523_947, 2));
    assert!(near(a1.u.y, -274_721_127, 2));
    assert!(near(a1.d, 1_373_605_639, 2));
    let a2 = axiom2(&u, &w).unwrap();
    assert!(near(a2.u.x, -274_721_127, 2));
    assert!(near(a2.u.y, -961_523_947, 2));
    assert!(near(a2.d, -1_016_468_173, 2));
}

#[test]
fn axiom1_of_one_point_has_no_line() {
    let u = v(0.3, 0.3);
    assert!(axiom1(&u, &u).is_none());
    assert!(axiom2(&u, &u).is_none());
}

#[test]
fn normals_are_unit_length() {
    let pairs = [(v(2.0, 2.0), v(1.2, -0.8)), (v(0.0, 0.0), v(1.0, 0.3)), (v(0.1, 0.9), v(0.1, 0.9000001))];
    for (a, b) in pairs.iter() {
        for l in [axiom1(a, b).unwrap(), axiom2(a, b).unwrap()] {
            let len = ((l.u.x as f64).powi(2) + (l.u.y as f64).powi(2)).sqrt();
            assert!((len - SCALE as f64).abs() <= 2.0);
        }
    }
}

#[test]
fn axiom3_crossing_lines_give_both_bisectors() {
    let boundary = make_square();
    let l = line(1.0, 0.0, 1.0);
    let m = line(0.0, 1.0, 1.0);
    let r = axiom3(&l, &m, &boundary);
    assert_eq!(r.len(), 2);
    assert!(near(r[0].u.x, 707_106_781, 2) && near(r[0].u.y, 707_106_781, 2));
    assert!(near(r[0].d, 1_414_213_562, 3));
    assert!(near(r[1].u.x, 707_106_781, 2) && near(r[1].u.y, -707_106_781, 2));
    assert!(near(r[1].d, 0, 2));
}

#[test]
fn axiom3_parallel_lines_give_one_line() {
    let boundary = make_square();
    let r = axiom3(&line(1.0, 0.0, 1.0), &line(1.0, 0.0, 0.5), &boundary);
    assert_eq!(r.len(), 1);
    assert_eq!(r[0].u.x, SCALE);
    assert_eq!(r[0].d, 750_000_000);
}

#[test]
fn axiom4_mirror_inside_and_outside() {
    let boundary = make_square();
    let a = v(0.2, 0.3);
    let r = axiom4(&a, &line(1.0, 0.0, 0.5), &boundary);
    assert_eq!(r.len(), 1);
    assert_eq!((r[0].u.x, r[0].u.y, r[0].d), (0, SCALE, 300_000_000));
    assert!(axiom4(&a, &line(1.0, 0.0, 0.05), &boundary).is_empty());
}

#[test]
fn axiom5_out_of_reach_and_tangent() {
    let boundary = make_square();
    let p1 = v(0.5, 0.5);
    let l = line(1.0, 0.0, 0.8);
    assert!(axiom5(&p1, &v(0.5, 0.7), &l, &boundary).is_empty());
    let r = axiom5(&p1, &v(0.5, 0.8), &l, &boundary);
    assert_eq!(r.len(), 1);
    assert!(near(r[0].u.x, -707_106_781, 2) && near(r[0].u.y, 707_106_781, 2));
    assert!(near(r[0].d, 0, 2));
}

#[test]
fn axiom5_two_crossings() {
    let boundary = make_square();
    let r = axiom5(&v(0.5, 0.5), &v(0.5, 0.9), &line(1.0, 0.0, 0.8), &boundary);
    assert_eq!(r.len(), 2);
}

#[test]
fn axiom7_value_and_parallel_case() {
    let boundary = make_square();
    let p = v(0.2, 0.3);
    let r = axiom7(&p, &line(1.0, 0.0, 0.5), &line(0.0, 1.0, 0.8), &boundary);
    assert_eq!(r.len(), 1);
    assert_eq!((r[0].u.x, r[0].u.y, r[0].d), (0, SCALE, 550_000_000));
    assert!(axiom7(&p, &line(0.0, 1.0, 0.5), &line(0.0, 1.0, 0.8), &boundary).is_empty());
}

#[test]
fn axiom6_from_a_root() {
    let boundary = make_square();
    let p1 = v(0.5, 0.4);
    let p2 = v(0.2, 0.1);
    let l1 = line(0.0, 1.0, 0.0);
    let r = axiom6_from_roots(&p1, &p2, &l1, &vec![-500_000_000], &boundary);
    assert_eq!(r.len(), 1);
    assert_eq!((r[0].u.x, r[0].u.y, r[0].d), (0, -SCALE, -200_000_000));
    assert!(axiom6_from_roots(&p1, &p2, &l1, &vec![-2_000_000_000], &boundary).is_empty());
}

#[test]
fn axiom6_rejects_point_on_line() {
    let l1 = line(0.0, 1.0, 0.5);
    let l2 = line(1.0, 0.0, 1.0);
    assert!(axiom6_cubic(&v(0.3, 0.5), &v(0.2, 0.2), &l1, &l2).is_none());
    assert!(axiom6_cubic(&v(0.3, 0.2), &v(0.2, 0.2), &l1, &l2).is_some());
}

#[test]
fn degree_by_threshold() {
    let c = |a, b, c, d| Cubic { a, b, c, d };
    assert_eq!(polynomial_degree(&c(11, 0, 0, 5)), 3);
    assert_eq!(polynomial_degree(&c(EPSILON as i128, 11, 0, 5)), 2);
    assert_eq!(polynomial_degree(&c(-10, -10, -11, 5)), 1);
    assert_eq!(polynomial_degree(&c(0, 0, 0, 5)), 0);
}

#[test]
fn intersect_and_parallel() {
    let a = line(1.0, 0.0, 0.25);
    let b = line(0.0, 1.0, 0.75);
    let p = a.intersect(&b).unwrap();
    assert_eq!((p.x, p.y), (250_000_000, 750_000_000));
    assert!(a.intersect(&line(1.0, 0.0, 0.5)).is_none());
}

#[test]
fn equivalence_is_symmetric_with_alias() {
    let a = line(1.0, 0.0, 0.5);
    let b = line(-1.0, 0.0, -0.5);
    assert!(a.equivalent(&b) && b.equivalent(&a));
    let c = line(1.0, 0.0, 0.6);
    assert!(!a.equivalent(&c) && !c.equivalent(&a));
    let p = Vector { x: 100, y: 100 };
    let q = Vector { x: 109, y: 91 };
    assert!(p.equivalent(&q) && q.equivalent(&p));
    let r = Vector { x: 110, y: 100 };
    assert!(!p.equivalent(&r) && !r.equivalent(&p));
}

#[test]
fn dedup_counts_repeated_point() {
    let mut idx: QuadTree = Index::new();
    let k = 5u64;
    for i in 0..k {
        idx.insert(&Vector { x: 400_000_000 + i as i64, y: 300_000_000 });
    }
    let flat = idx.flatten();
    assert_eq!(flat.len(), 1);
    assert_eq!(flat[0].1, k);
    assert_eq!(idx.len(), 1);
}

#[test]
fn dedup_counts_line_and_its_alias() {
    let mut idx: LineContainer = Index::new();
    idx.insert(&line(0.6, 0.8, 0.5));
    idx.insert(&line(-0.6, -0.8, -0.5));
    idx.insert(&line(0.6, 0.8, 0.5));
    let flat = idx.flatten();
    assert_eq!(flat.len(), 1);
    assert_eq!(flat[0].1, 3);
}

#[test]
fn dedup_across_bucket_edge() {
    let mut idx: QuadTree = Index::new();
    idx.insert(&Vector { x: 999_999, y: 5 });
    assert!(idx.duplicate_check(&Vector { x: 1_000_003, y: 5 }));
    assert!(!idx.duplicate_check(&Vector { x: 1_000_009, y: 5 }));
    assert_eq!(idx.flatten()[0].1, 2);
}

#[test]
fn merge_sums_and_adds() {
    let mut a: QuadTree = Index::new();
    let mut b: QuadTree = Index::new();
    a.insert(&v(0.1, 0.1));
    b.insert(&v(0.1, 0.1));
    b.insert(&v(0.1, 0.1));
    b.insert(&v(0.7, 0.2));
    a.merge(&b);
    let mut flat = a.flatten();
    flat.sort_by_key(|e| e.0.x);
    assert_eq!(flat.len(), 2);
    assert_eq!(flat[0].1, 3);
    assert_eq!(flat[1].1, 1);
}

#[test]
fn linear_duplicate_checks() {
    let mut lines = vec![(line(1.0, 0.0, 0.5), 1u64), (line(0.0, 1.0, 0.5), 4u64)];
    assert!(duplicate_line_check(&line(0.0, -1.0, -0.5), &mut lines));
    assert_eq!(lines[1].1, 5);
    assert!(!duplicate_line_check(&line(0.0, 1.0, 0.7), &mut lines));
    let mut points = vec![(v(0.5, 0.5), 2u64)];
    assert!(duplicate_point_check(&v(0.5, 0.5), &mut points));
    assert_eq!(points[0].1, 3);
    assert!(!duplicate_point_check(&v(0.6, 0.5), &mut points));
}

#[test]
fn clip_diagonal_and_miss() {
    let boundary = make_square();
    let diag = axiom1(&v(0.0, 0.0), &v(1.0, 1.0)).unwrap();
    let s = boundary.clip(&diag).unwrap();
    assert!(near(s.a.x, 0, 2) && near(s.a.y, 0, 2));
    assert!(near(s.b.x, SCALE, 2) && near(s.b.y, SCALE, 2));
    assert!(boundary.clip(&line(1.0, 0.0, 2.0)).is_none());
}

#[test]
fn first_round_of_axioms_one_and_two() {
    let boundary = make_square();
    let (points, mut lines) = initial_state(&corners(), &boundary);
    assert_eq!(points.len(), 4);
    assert_eq!(lines.len(), 4);
    let pts = points.sample(usize::MAX);
    let mut new_lines: LineContainer = Index::new();
    compute_axiom1(&pts, &mut lines, &mut new_lines, &boundary);
    compute_axiom2(&pts, &mut lines, &mut new_lines, &boundary);
    assert_eq!(new_lines.len(), 4);
}

#[test]
fn rounds_keep_points_inside() {
    let boundary = make_square();
    let (mut points, mut lines) = initial_state(&corners(), &boundary);
    let mut config = default_config();
    config.max_points = 6;
    config.max_lines = 6;
    config.max_rows = 20;
    for round in 0..2 {
        make_round(round, &mut points, &mut lines, &boundary, &config, &Vec::new());
    }
    assert!(points.len() > 4);
    for (p, count) in points.flatten() {
        assert!(boundary.contains(&p));
        assert!(count >= 1);
    }
    for (s, _) in segments(&lines, &boundary) {
        assert!(boundary.contains(&s.a) && boundary.contains(&s.b));
    }
}

#[test]
fn late_round_keeps_points_and_takes_extra_lines() {
    let boundary = make_square();
    let (mut points, mut lines) = initial_state(&corners(), &boundary);
    let config = default_config();
    let extra = vec![line(0.6, 0.8, 0.3)];
    make_round(config.point_rounds, &mut points, &mut lines, &boundary, &config, &extra);
    assert_eq!(points.len(), 4);
    let flat = lines.flatten();
    assert!(flat.iter().any(|(l, _)| l.equivalent(&extra[0])));
    // the diagonals and the two midlines of the square, beside its four sides
    assert!(flat.iter().any(|(l, _)| l.equivalent(&line(0.0, 1.0, 0.5))));
    assert!(flat.iter().any(|(l, _)| l.equivalent(&line(1.0, 0.0, 0.5))));
}

#[test]
fn sides_of_the_square_clip_to_its_edges() {
    let boundary = make_square();
    let (_points, lines) = initial_state(&corners(), &boundary);
    let segs = segments(&lines, &boundary);
    assert_eq!(segs.len(), 4);
    for (s, count) in segs {
        assert_eq!(count, 1);
        let len = (((s.a.x - s.b.x) as f64).powi(2) + ((s.a.y - s.b.y) as f64).powi(2)).sqrt();
        assert!((len - SCALE as f64).abs() < 2.0);
    }
}

#[test]
fn axiom1_line_passes_through_both_points() {
    let a = v(0.13, 0.91);
    let b = v(0.77, 0.05);
    let l = axiom1(&a, &b).unwrap();
    assert!((a.dot(&l.u) - l.d).abs() <= 2 * EPSILON);
    assert!((b.dot(&l.u) - l.d).abs() <= 2 * EPSILON);
}

#[test]
fn short_vectors_give_unit_normals() {
    let origin = Vector { x: 0, y: 0 };
    for (a, b) in [(origin, Vector { x: 1, y: -10 }), (origin, Vector { x: 10, y: 1 }), (origin, Vector { x: 8, y: 8 })] {
        for l in [axiom1(&a, &b).unwrap(), axiom2(&a, &b).unwrap()] {
            let len = ((l.u.x as f64).powi(2) + (l.u.y as f64).powi(2)).sqrt();
            assert!((len - SCALE as f64).abs() <= EPSILON as f64, "{}", len);
            assert!(l.is_wf());
        }
    }
}

#[test]
fn intersections_hold_no_equivalent_points() {
    let boundary = make_square();
    let (mut points, lines) = initial_state(&corners(), &boundary);
    let diag1 = axiom1(&v(0.0, 0.0), &v(1.0, 1.0)).unwrap();
    let diag2 = axiom1(&v(1.0, 0.0), &v(0.0, 1.0)).unwrap();
    let mid = axiom2(&v(0.0, 0.0), &v(1.0, 0.0)).unwrap();
    let old_lines = lines.sample(usize::MAX);
    let r = compute_intersections(&mut points, &old_lines, &vec![diag1, diag2, mid], &boundary, 301);
    let found = r.flatten();
    for (i, (p, _)) in found.iter().enumerate() {
        for (q, _) in found.iter().skip(i + 1) {
            assert!(!p.equivalent(q));
        }
        for (h, _) in points.flatten() {
            assert!(!p.equivalent(&h));
        }
    }
    // the centre, counted three times, is held once
    let centre = found.iter().find(|(p, _)| p.equivalent(&v(0.5, 0.5))).unwrap();
    assert_eq!(centre.1, 3);
}
