use msdfont::math::{
    line_fn, line_quad_intersect, quadratic_fn, lines_intersect, signed_distance_from_line,
    signed_distance_from_quad, solve_cubic, solve_quadratic, SignedDistance, ORTHO_ONE, ROOT_ONE,
};
use msdfont::shape::{Line, Quad};
use msdfont::vector::Vector2;

#[test]
fn line_quad_intersection_test() {
    let l1 = Vector2::new(1, 1);
    let l2 = Vector2::new(10, 10);
    let q1 = Vector2::new(1, 1);
    let q2_ctrl = Vector2::new(3, 8);
    let q3 = Vector2::new(11, 11);

    assert!(line_quad_intersect(q1, q2_ctrl, q3, l1, l2));
}

#[test]
fn line_intersection_test() {
    // Parallel lines:
    let p1 = Vector2::new(1, 1);
    let p2 = Vector2::new(10, 1);
    let p3 = Vector2::new(1, 20);
    let p4 = Vector2::new(10, 20);
    assert!(!lines_intersect(p1, p2, p3, p4));

    // Coincident lines:
    let p1 = Vector2::new(1, 1);
    let p2 = Vector2::new(10, 3);
    let p3 = Vector2::new(1, 1);
    let p4 = Vector2::new(10, 3);
    assert!(!lines_intersect(p1, p2, p3, p4));

    // Crossing lines:
    let p1 = Vector2::new(1, 1);
    let p2 = Vector2::new(10, 10);
    let p3 = Vector2::new(1, 10);
    let p4 = Vector2::new(3, 0);
    assert!(lines_intersect(p1, p2, p3, p4));

    // Lines meet at ending point:
    let p1 = Vector2::new(1, 1);
    let p2 = Vector2::new(10, 10);
    let p3 = Vector2::new(10, 10);
    let p4 = Vector2::new(20, 1);
    assert!(lines_intersect(p1, p2, p3, p4));

    // Not parallel, not crossing lines:
    let p1 = Vector2::new(1, 10);
    let p2 = Vector2::new(3, 1);
    let p3 = Vector2::new(3, 10);
    let p4 = Vector2::new(10, 15);
    assert!(!lines_intersect(p1, p2, p3, p4));

    // On the same line crossing:
    let p1 = Vector2::new(1, 1);
    let p2 = Vector2::new(10, 10);
    let p3 = Vector2::new(8, 8);
    let p4 = Vector2::new(20, 20);
    assert!(!lines_intersect(p1, p2, p3, p4));

    // On the same line but not crossing:
    let p1 = Vector2::new(1, 1);
    let p2 = Vector2::new(100, 100);
    let p3 = Vector2::new(110, 110);
    let p4 = Vector2::new(200, 200);
    assert!(!lines_intersect(p1, p2, p3, p4));
}

/// Cardano's quantities of a cubic, computed in floating point: the
/// discriminant's sign tells one real root from three.
fn test_find_cubic_roots(_a: f32, _b: f32, _c: f32, _d: f32) -> (Vec<f32>, f32, f32, f32) {
    let b = _b / _a;
    let c = _c / _a;
    let d = _d / _a;

    let q = (3.0 * c - b * b) / 9.0;
    let r = (9.0 * b * c - 27.0 * d - 2.0 * b * b * b) / 54.0;
    let qqq = q * q * q;
    let discriminant = qqq + r * r;
    let third = 1.0 / 3.0;

    if discriminant > 0.0 {
        let s = (r + discriminant.sqrt()).cbrt();
        let t = (r - discriminant.sqrt()).cbrt();
        let x1 = (s + t) - third * b;
        return (vec![x1], discriminant, q, r);
    }
    let two_pi = 2.0 * std::f32::consts::PI;
    let theta = (r / (-qqq).sqrt()).acos();
    let m = 2.0 * (-q).sqrt();
    let n = b * third;
    let x1 = m * (theta / 3.0).cos() - n;
    let x2 = m * ((theta + two_pi) / 3.0).cos() - n;
    let x3 = m * ((theta + 2.0 * two_pi) / 3.0).cos() - n;
    (vec![x1, x2, x3], discriminant, q, r)
}

#[test]
fn cubic_root_test() {
    let a = 1.0;
    let b = 100.4;
    let c = -100.4;
    let d = -0.29;
    let (_roots, discriminant, q, r) = test_find_cubic_roots(a, b, c, d);

    assert!(q < 0.0);
    assert!(r < 0.0);
    assert!(discriminant < 0.0);

    // The library's solver, on the same cubic times 100: of its three real
    // roots (about -101.4, -0.0029 and 0.9942) two lie in the window.
    let roots = solve_cubic(100, 10040, -10040, -29, -16 * ROOT_ONE, 16 * ROOT_ONE);
    assert_eq!(roots.len(), 2);
    assert!(has_root_near(&roots, -0.29 / 100.4));
    assert!(roots.iter().any(|&k| k > ROOT_ONE * 99 / 100 && k < ROOT_ONE));
}

#[test]
fn cubic_root_test2() {
    let a = 1.0;
    let b = -1.0;
    let c = -1.6;
    let d = 2.5;
    let (_roots, discriminant, _q, _r) = test_find_cubic_roots(a, b, c, d);

    assert!(discriminant > 0.0);

    // One real root, near -1.405, for the library's solver too.
    let roots = solve_cubic(10, -10, -16, 25, -16 * ROOT_ONE, 16 * ROOT_ONE);
    assert_eq!(roots.len(), 1);
    assert!(roots[0] > -ROOT_ONE * 141 / 100 && roots[0] < -ROOT_ONE * 140 / 100);
}

fn has_root_near(roots: &[i64], t: f64) -> bool {
    roots
        .iter()
        .any(|&k| ((k as f64) / (ROOT_ONE as f64) - t).abs() < 1e-3)
}

#[test]
fn solve_cubic_three_roots() {
    // (t - 1)(t - 2)(t - 3)
    let roots = solve_cubic(1, -6, 11, -6, -4 * ROOT_ONE, 4 * ROOT_ONE);
    assert!(has_root_near(&roots, 1.0));
    assert!(has_root_near(&roots, 2.0));
    assert!(has_root_near(&roots, 3.0));
    assert_eq!(roots.len(), 3);
}

#[test]
fn solve_cubic_one_root() {
    // (t - 2)(t^2 + 1)
    let roots = solve_cubic(1, -2, 1, -2, -4 * ROOT_ONE, 4 * ROOT_ONE);
    assert_eq!(roots.len(), 1);
    assert!(has_root_near(&roots, 2.0));
}

#[test]
fn solve_cubic_double_root() {
    // (t - 1)^2 (t + 2)
    let roots = solve_cubic(1, 0, -3, 2, -4 * ROOT_ONE, 4 * ROOT_ONE);
    assert!(has_root_near(&roots, 1.0));
    assert!(has_root_near(&roots, -2.0));
}

#[test]
fn solve_cubic_negative_and_fractional_roots() {
    // 16 (t + 0.5)(t - 0.25)(t - 1.5)
    let roots = solve_cubic(16, -20, -8, 3, -4 * ROOT_ONE, 4 * ROOT_ONE);
    assert!(has_root_near(&roots, -0.5));
    assert!(has_root_near(&roots, 0.25));
    assert!(has_root_near(&roots, 1.5));
}

#[test]
fn solve_cubic_delegates_to_quadratic() {
    // (t - 0.5)(t - 3) = t^2 - 3.5t + 1.5, times 2.
    let roots = solve_cubic(0, 2, -7, 3, -4 * ROOT_ONE, 4 * ROOT_ONE);
    assert!(has_root_near(&roots, 0.5));
    assert!(has_root_near(&roots, 3.0));
    let same = solve_quadratic(2, -7, 3, -4 * ROOT_ONE, 4 * ROOT_ONE);
    assert_eq!(roots, same);
}

#[test]
fn solve_quadratic_without_real_roots() {
    assert!(solve_quadratic(1, 0, 1, -4 * ROOT_ONE, 4 * ROOT_ONE).is_empty());
}

#[test]
fn solve_cubic_keeps_to_the_window() {
    let roots = solve_cubic(1, -6, 11, -6, 0, ROOT_ONE + ROOT_ONE / 2);
    assert!(has_root_near(&roots, 1.0));
    assert!(!has_root_near(&roots, 2.0));
}

#[test]
fn line_distance_inside_projection() {
    let line = Line::new(Vector2::new(0, 0), Vector2::new(10, 0));
    let d = signed_distance_from_line(line, Vector2::new(5, 3));
    assert_eq!(d.real_dist, 3);
    assert_eq!(d.extended_dist, 3);
    assert_eq!(d.orthogonality, ORTHO_ONE);
    assert_eq!(d.sign, 1);
    let below = signed_distance_from_line(line, Vector2::new(5, -3));
    assert_eq!(below.sign, -1);
}

#[test]
fn line_distance_clamps_to_the_ends() {
    let line = Line::new(Vector2::new(0, 0), Vector2::new(10, 0));
    // Beyond the end: real distance to (10, 0), extended distance to the line.
    let d = signed_distance_from_line(line, Vector2::new(13, 4));
    assert_eq!(d.real_dist, 5);
    assert_eq!(d.extended_dist, 4);
    // sin = 4 / 5
    assert_eq!(d.orthogonality, 819);
    let before = signed_distance_from_line(line, Vector2::new(-3, -4));
    assert_eq!(before.real_dist, 5);
    assert_eq!(before.sign, -1);
}

#[test]
fn line_distance_on_the_segment_and_degenerate() {
    let line = Line::new(Vector2::new(0, 0), Vector2::new(10, 0));
    let on = signed_distance_from_line(line, Vector2::new(4, 0));
    assert_eq!(on.real_dist, 0);
    assert_eq!(on.sign, 0);
    let point = Line::new(Vector2::new(2, 2), Vector2::new(2, 2));
    let d = signed_distance_from_line(point, Vector2::new(5, 6));
    assert_eq!(d.real_dist, 5);
    assert_eq!(d.orthogonality, 0);
    assert_eq!(d.sign, 0);
}

#[test]
fn line_distance_rounds_down() {
    let line = Line::new(Vector2::new(0, 0), Vector2::new(0, 0));
    // sqrt(2) = 1.41...
    assert_eq!(signed_distance_from_line(line, Vector2::new(1, 1)).real_dist, 1);
}

#[test]
fn quad_distance_at_the_apex() {
    // B(t) = (640 t, 1280 t (1 - t)); its apex is (320, 320).
    let quad = Quad::new(Vector2::new(0, 0), Vector2::new(320, 640), Vector2::new(640, 0));
    let d = signed_distance_from_quad(quad, Vector2::new(320, 384));
    assert_eq!(d.real_dist, 64);
    let on = signed_distance_from_quad(quad, Vector2::new(320, 320));
    assert_eq!(on.real_dist, 0);
}

#[test]
fn quad_distance_at_an_end() {
    let quad = Quad::new(Vector2::new(0, 0), Vector2::new(320, 640), Vector2::new(640, 0));
    let d = signed_distance_from_quad(quad, Vector2::new(-30, -40));
    assert_eq!(d.real_dist, 50);
}

#[test]
fn signed_distance_order() {
    let near = SignedDistance { real_dist: 3, extended_dist: 3, orthogonality: 10, sign: 1 };
    let far = SignedDistance { real_dist: 4, extended_dist: 4, orthogonality: 1024, sign: 1 };
    let tie = SignedDistance { real_dist: 3, extended_dist: 3, orthogonality: 900, sign: -1 };
    assert!(near.is_closer(&far));
    assert!(!far.is_closer(&near));
    assert!(tie.is_closer(&near));
    assert!(!near.is_closer(&near));
    assert_eq!(SignedDistance::max().sign, -1);
    assert_eq!(far.real_signed(), 4);
    assert_eq!(tie.real_signed(), -3);
}

#[test]
fn line_fn_points() {
    let p = line_fn(Vector2::new(0, 0), Vector2::new(10, -10), ROOT_ONE / 2);
    assert_eq!(p, Vector2::new(5, -5));
    let q = line_fn(Vector2::new(0, 0), Vector2::new(-3, 3), ROOT_ONE / 2);
    // -1.5 rounds down to -2, 1.5 to 1.
    assert_eq!(q, Vector2::new(-2, 1));
}

#[test]
fn quadratic_fn_points() {
    let p0 = Vector2::new(0, 0);
    let p1 = Vector2::new(320, 640);
    let p2 = Vector2::new(640, 0);
    assert_eq!(quadratic_fn(p0, p1, p2, 0), p0);
    assert_eq!(quadratic_fn(p0, p1, p2, ROOT_ONE), p2);
    assert_eq!(quadratic_fn(p0, p1, p2, ROOT_ONE / 2), Vector2::new(320, 320));
    // t = 1/4: (160, 240)
    assert_eq!(quadratic_fn(p0, p1, p2, ROOT_ONE / 4), Vector2::new(160, 240));
}

#[test]
fn solve_quadratic_two_roots() {
    // t^2 - 3t + 2
    let roots = solve_quadratic(1, -3, 2, -4 * ROOT_ONE, 4 * ROOT_ONE);
    assert_eq!(roots, vec![ROOT_ONE, 2 * ROOT_ONE]);
}

#[test]
fn solve_cubic_zero_roots_exactly() {
    // (t - 1)(t^2 + 1) has one real root, exactly on the grid.
    let roots = solve_cubic(1, -1, 1, -1, -4 * ROOT_ONE, 4 * ROOT_ONE);
    assert_eq!(roots, vec![ROOT_ONE]);
}

#[test]
fn straight_quad_matches_its_line() {
    let quad = Quad::new(Vector2::new(0, 0), Vector2::new(64, 0), Vector2::new(128, 0));
    let line = Line::new(Vector2::new(0, 0), Vector2::new(128, 0));
    for p in [Vector2::new(640, 192), Vector2::new(-100, 50), Vector2::new(64, -70)] {
        let q = signed_distance_from_quad(quad, p);
        let l = signed_distance_from_line(line, p);
        assert_eq!(q.real_dist, l.real_dist);
        assert_eq!(q.extended_dist, l.extended_dist);
        assert_eq!(q.sign, l.sign);
    }
}

#[test]
fn quad_orthogonality() {
    let quad = Quad::new(Vector2::new(0, 0), Vector2::new(320, 640), Vector2::new(640, 0));
    // Above the apex the offset is perpendicular to the tangent.
    let d = signed_distance_from_quad(quad, Vector2::new(320, 512));
    assert_eq!(d.real_dist, 192);
    assert_eq!(d.orthogonality, ORTHO_ONE);
    let point = Quad::new(Vector2::new(5, 5), Vector2::new(5, 5), Vector2::new(5, 5));
    let e = signed_distance_from_quad(point, Vector2::new(8, 9));
    assert_eq!(e.real_dist, 5);
    assert_eq!(e.orthogonality, 0);
}

#[test]
fn line_meets_the_bulge_of_a_quad() {
    // Apex at (50, 50).
    let (q0, q1, q2) = (Vector2::new(0, 0), Vector2::new(50, 100), Vector2::new(100, 0));
    assert!(line_quad_intersect(q0, q1, q2, Vector2::new(20, 45), Vector2::new(80, 45)));
    assert!(!line_quad_intersect(q0, q1, q2, Vector2::new(40, 60), Vector2::new(60, 60)));
    assert!(!line_quad_intersect(q0, q1, q2, Vector2::new(40, 40), Vector2::new(60, 40)));
}

#[test]
fn solve_quadratic_cases() {
    let w = 4 * ROOT_ONE;
    // No equation at all, and a constant: no root.
    assert!(solve_quadratic(0, 0, 0, -w, w).is_empty());
    assert!(solve_quadratic(0, 0, 5, -w, w).is_empty());
    // Linear: 4t - 2 has its root at 1/2.
    assert_eq!(solve_quadratic(0, 4, -2, -w, w), vec![ROOT_ONE / 2]);
    // A double root off the grid: 9t^2 - 6t + 1 = (3t - 1)^2.
    assert_eq!(solve_quadratic(9, -6, 1, -w, w), vec![ROOT_ONE / 3]);
    // No real root.
    assert!(solve_quadratic(1, 0, 1, -w, w).is_empty());
    // Two roots, 1/(3T) and 2/(3T), within one grid step.
    let t = ROOT_ONE as i128;
    assert_eq!(solve_quadratic(9 * t * t, -9 * t, 2, -w, w), vec![0]);
    // Negative roots round down: -(t + 0.5)(t + 2) = -t^2 - 2.5t - 1.
    assert_eq!(solve_quadratic(-2, -5, -2, -w, w), vec![-2 * ROOT_ONE, -ROOT_ONE / 2]);
}

#[test]
fn quad_distance_is_the_nearest_of_two_minima() {
    // Seen from below the apex, both flanks of the curve are local minima;
    // the nearer one wins.
    let quad = Quad::new(Vector2::new(0, 0), Vector2::new(400, 1280), Vector2::new(640, 0));
    let p = Vector2::new(330, 100);
    let d = signed_distance_from_quad(quad, p);
    // Sampled on a fine grid, the least distance.
    let mut best = f64::MAX;
    for i in 0..=100000 {
        let t = i as f64 / 100000.0;
        let x = 2.0 * t * (1.0 - t) * 400.0 + t * t * 640.0;
        let y = 2.0 * t * (1.0 - t) * 1280.0;
        best = best.min(((x - 330.0).powi(2) + (y - 100.0).powi(2)).sqrt());
    }
    assert!((d.real_dist as f64 - best).abs() <= 1.0, "{} vs {}", d.real_dist, best);
}
