use vstd::prelude::*;

use crate::gen::{contour_none_closer, contour_yields, pixel_ok, resolved_ok, same_but_sign};
use crate::math::{
    is_isqrt, lemma_isqrt_unique, lemma_lagrange, lemma_line_dist_unique, line_dist2, line_dist_ok,
    ortho2_between, quad_g, quad_global_min, quad_side, quad_tangent, sub_spec, tangent_dist2,
    ORTHO_ONE, ROOT_ONE,
};
use crate::math::SignedDistance;
use crate::shape::{
    edge_crossing, flatten, none_closer, seg_dist_ok, seg_points, poly_winding, polyline_winding, seg_end, seg_polyline, seg_start,
    shape_winding, shoelace_sum, winding_of, Curve, Line, Quad, Segment, Shape, Winding,
};
use crate::vector::{cross_spec, dist2_spec, dot_spec, Vector2};

verus! {

/// The point `(x, y)`.
pub open spec fn pt(x: i64, y: i64) -> Vector2 {
    Vector2 { x, y }
}

/// A segment traced the other way.
pub open spec fn reverse_segment(s: Segment) -> Segment {
    match s {
        Segment::Line(l) => Segment::Line(Line { from: l.to, to: l.from }),
        Segment::Quadratic(q) => Segment::Quadratic(Quad { from: q.to, ctrl: q.ctrl, to: q.from }),
        Segment::Cubic(c) => Segment::Cubic(
            Curve { from: c.to, ctrl1: c.ctrl2, ctrl2: c.ctrl1, to: c.from },
        ),
    }
}

/// A contour traced the other way: the segments in reverse order, each
/// reversed.
pub open spec fn reverse_contour(segs: Seq<Segment>) -> Seq<Segment> {
    Seq::new(segs.len(), |i: int| reverse_segment(segs[segs.len() - 1 - i]))
}

proof fn lemma_shoelace_reverse_prefix(segs: Seq<Segment>, n: int)
    requires
        0 <= n <= segs.len(),
    ensures
        shoelace_sum(reverse_contour(segs), n) == -(shoelace_sum(segs, segs.len() as int)
            - shoelace_sum(segs, segs.len() - n)),
    decreases n,
{
    if n > 0 {
        lemma_shoelace_reverse_prefix(segs, n - 1);
        let r = reverse_contour(segs);
        let s = segs[segs.len() - n];
        assert(r[n - 1] == reverse_segment(s));
        assert(seg_start(reverse_segment(s)) == seg_end(s));
        assert(seg_end(reverse_segment(s)) == seg_start(s));
        let (a, b) = (seg_start(s), seg_end(s));
        assert(cross_spec(b, a) == -cross_spec(a, b)) by (nonlinear_arith);
    }
}

/// Tracing a contour the other way negates its shoelace sum.
pub proof fn lemma_shoelace_reverse(segs: Seq<Segment>)
    ensures
        shoelace_sum(reverse_contour(segs), segs.len() as int) == -shoelace_sum(
            segs,
            segs.len() as int,
        ),
{
    lemma_shoelace_reverse_prefix(segs, segs.len() as int);
}

/// Tracing a contour of non-zero area the other way flips its winding: a
/// clockwise contour (positive shoelace sum in screen space) becomes
/// counter-clockwise and the other way round.
pub proof fn lemma_winding_reverse(segs: Seq<Segment>)
    requires
        shoelace_sum(segs, segs.len() as int) != 0,
    ensures
        winding_of(reverse_contour(segs)) == Winding(!winding_of(segs).0),
{
    lemma_shoelace_reverse(segs);
    assert(reverse_contour(segs).len() == segs.len());
}


/// Every segment is a line.
pub open spec fn all_lines(segs: Seq<Segment>) -> bool {
    forall|i: int| 0 <= i < segs.len() ==> #[trigger] segs[i] is Line
}

/// The polyline of a chain of lines is its start followed by the end of
/// every line.
pub proof fn lemma_flatten_lines(segs: Seq<Segment>)
    requires
        segs.len() >= 1,
        all_lines(segs),
    ensures
        flatten(segs).len() == segs.len() + 1,
        flatten(segs)[0] == seg_start(segs[0]),
        forall|i: int| 0 <= i < segs.len() ==> flatten(segs)[i + 1] == seg_end(#[trigger] segs[i]),
    decreases segs.len(),
{
    let init = segs.drop_last();
    assert(segs.last() is Line);
    if init.len() > 0 {
        assert forall|i: int| 0 <= i < init.len() implies #[trigger] init[i] is Line by {
            assert(init[i] == segs[i]);
        }
        lemma_flatten_lines(init);
        assert forall|i: int| 0 <= i < segs.len() implies flatten(segs)[i + 1] == seg_end(
            #[trigger] segs[i],
        ) by {
            if i < init.len() {
                assert(init[i] == segs[i]);
            }
        }
        assert(init[0] == segs[0]);
    }
}

/// The four sides of the box `[x0, x1] x [y0, y1]`, clockwise on screen
/// (y grows downwards): right along the top, down the right side, left
/// along the bottom, up the left side.
pub open spec fn square_lines(x0: i64, y0: i64, x1: i64, y1: i64) -> Seq<Segment> {
    let (a, b, c, d) = (
        Vector2 { x: x0, y: y0 },
        Vector2 { x: x1, y: y0 },
        Vector2 { x: x1, y: y1 },
        Vector2 { x: x0, y: y1 },
    );
    seq![
        Segment::Line(Line { from: a, to: b }),
        Segment::Line(Line { from: b, to: c }),
        Segment::Line(Line { from: c, to: d }),
        Segment::Line(Line { from: d, to: a }),
    ]
}

/// `p` lies in the box, its left and top sides included, its right and
/// bottom sides excluded.
pub open spec fn in_box(p: Vector2, x0: i64, y0: i64, x1: i64, y1: i64) -> bool {
    x0 <= p.x < x1 && y0 <= p.y < y1
}

pub open spec fn box_ok(x0: i64, y0: i64, x1: i64, y1: i64) -> bool {
    &&& pt(x0, y0).is_point()
    &&& pt(x1, y1).is_point()
    &&& x0 < x1
    &&& y0 < y1
}

proof fn lemma_square_points(x0: i64, y0: i64, x1: i64, y1: i64)
    ensures
        flatten(square_lines(x0, y0, x1, y1)) =~= seq![
            pt(x0, y0),
            pt(x1, y0),
            pt(x1, y1),
            pt(x0, y1),
            pt(x0, y0),
        ],
        flatten(reverse_contour(square_lines(x0, y0, x1, y1))) =~= seq![
            pt(x0, y0),
            pt(x0, y1),
            pt(x1, y1),
            pt(x1, y0),
            pt(x0, y0),
        ],
{
    let s = square_lines(x0, y0, x1, y1);
    assert(all_lines(s));
    lemma_flatten_lines(s);
    let r = reverse_contour(s);
    assert(all_lines(r));
    lemma_flatten_lines(r);
    assert(flatten(s)[1] == seg_end(s[0]));
    assert(flatten(s)[2] == seg_end(s[1]));
    assert(flatten(s)[3] == seg_end(s[2]));
    assert(flatten(s)[4] == seg_end(s[3]));
    assert(flatten(r)[1] == seg_end(r[0]));
    assert(flatten(r)[2] == seg_end(r[1]));
    assert(flatten(r)[3] == seg_end(r[2]));
    assert(flatten(r)[4] == seg_end(r[3]));
}

/// The cross product of a vertical side from `(x, ya)` to `(x, yb)` with
/// the vector to `p`.
proof fn lemma_side_cross(ya: i64, yb: i64, x: i64, p: Vector2)
    requires
        pt(x, ya).is_point(),
        pt(x, yb).is_point(),
        p.is_point(),
    ensures
        cross_spec(pt(0, (yb - ya) as i64), pt((p.x - x) as i64, (p.y - ya) as i64)) == (yb - ya)
            * (x - p.x),
{
    let u = Vector2 { x: 0, y: (yb - ya) as i64 };
    let w = Vector2 { x: (p.x - x) as i64, y: (p.y - ya) as i64 };
    assert(u.y == yb - ya && w.x == p.x - x);
    assert(u.x * w.y - u.y * w.x == (yb - ya) * (x - p.x)) by (nonlinear_arith)
        requires
            u.x == 0,
            u.y == yb - ya,
            w.x == p.x - x,
    ;
}

/// The clockwise square winds once around the points of its box and not
/// at all around the others.
pub proof fn lemma_square_winding(x0: i64, y0: i64, x1: i64, y1: i64, p: Vector2)
    requires
        box_ok(x0, y0, x1, y1),
        p.is_point(),
    ensures
        polyline_winding(flatten(square_lines(x0, y0, x1, y1)), p) == if in_box(
            p,
            x0,
            y0,
            x1,
            y1,
        ) {
            1int
        } else {
            0int
        },
        polyline_winding(flatten(reverse_contour(square_lines(x0, y0, x1, y1))), p) == if in_box(
            p,
            x0,
            y0,
            x1,
            y1,
        ) {
            -1int
        } else {
            0int
        },
{
    lemma_square_points(x0, y0, x1, y1);
    let pts = flatten(square_lines(x0, y0, x1, y1));
    let rts = flatten(reverse_contour(square_lines(x0, y0, x1, y1)));
    let h = y1 - y0;
    lemma_side_cross(y0, y1, x1, p);
    lemma_side_cross(y1, y0, x0, p);
    lemma_side_cross(y0, y1, x0, p);
    lemma_side_cross(y1, y0, x1, p);
    assert(h * (x1 - p.x) > 0 <==> p.x < x1) by (nonlinear_arith)
        requires
            h > 0,
    ;
    assert((-h) * (x0 - p.x) < 0 <==> p.x < x0) by (nonlinear_arith)
        requires
            h > 0,
    ;
    assert(h * (x0 - p.x) > 0 <==> p.x < x0) by (nonlinear_arith)
        requires
            h > 0,
    ;
    assert((-h) * (x1 - p.x) < 0 <==> p.x < x1) by (nonlinear_arith)
        requires
            h > 0,
    ;
    assert(edge_crossing(pts[0], pts[1], p) == 0);
    assert(edge_crossing(pts[2], pts[3], p) == 0);
    assert(edge_crossing(rts[1], rts[2], p) == 0);
    assert(edge_crossing(rts[3], rts[4], p) == 0);
    assert(polyline_winding(pts, p) == poly_winding(pts, p, 4));
    assert(poly_winding(pts, p, 4) == poly_winding(pts, p, 3) + edge_crossing(pts[3], pts[4], p));
    assert(poly_winding(pts, p, 3) == poly_winding(pts, p, 2) + edge_crossing(pts[2], pts[3], p));
    assert(poly_winding(pts, p, 2) == poly_winding(pts, p, 1) + edge_crossing(pts[1], pts[2], p));
    assert(poly_winding(pts, p, 1) == poly_winding(pts, p, 0) + edge_crossing(pts[0], pts[1], p));
    assert(polyline_winding(rts, p) == poly_winding(rts, p, 4));
    assert(poly_winding(rts, p, 4) == poly_winding(rts, p, 3) + edge_crossing(rts[3], rts[4], p));
    assert(poly_winding(rts, p, 3) == poly_winding(rts, p, 2) + edge_crossing(rts[2], rts[3], p));
    assert(poly_winding(rts, p, 2) == poly_winding(rts, p, 1) + edge_crossing(rts[1], rts[2], p));
    assert(poly_winding(rts, p, 1) == poly_winding(rts, p, 0) + edge_crossing(rts[0], rts[1], p));
}


/// Non-zero rule: for a clockwise square with a counter-clockwise square
/// hole inside it, the resolver reports inside (sign `1`) exactly for the
/// points of the outer box that are not in the hole, and outside (sign
/// `-1`) everywhere else, the boundaries included as `in_box` says.
pub proof fn lemma_square_with_hole(
    shape: &Shape,
    x0: i64,
    y0: i64,
    x1: i64,
    y1: i64,
    hx0: i64,
    hy0: i64,
    hx1: i64,
    hy1: i64,
    p: Vector2,
    r: SignedDistance,
)
    requires
        shape.wf(),
        shape.contours@.len() == 2,
        shape.contours@[0].segments@ == square_lines(x0, y0, x1, y1),
        shape.contours@[1].segments@ == reverse_contour(square_lines(hx0, hy0, hx1, hy1)),
        box_ok(x0, y0, x1, y1),
        box_ok(hx0, hy0, hx1, hy1),
        x0 < hx0,
        hx1 < x1,
        y0 < hy0,
        hy1 < y1,
        p.is_point(),
        resolved_ok(shape, p, r),
    ensures
        r.sign == 1 <==> in_box(p, x0, y0, x1, y1) && !in_box(p, hx0, hy0, hx1, hy1),
        r.sign == -1 <==> !(in_box(p, x0, y0, x1, y1) && !in_box(p, hx0, hy0, hx1, hy1)),
{
    let cs = shape.contours@;
    assert(cs[0].wf() && cs[1].wf());
    lemma_square_winding(x0, y0, x1, y1, p);
    lemma_square_winding(hx0, hy0, hx1, hy1, p);
    assert(shape.winding_spec(p) == shape_winding(cs, p, 2));
    assert(shape_winding(cs, p, 2) == shape_winding(cs, p, 1) + polyline_winding(cs[1].outline@, p));
    assert(shape_winding(cs, p, 1) == shape_winding(cs, p, 0) + polyline_winding(cs[0].outline@, p));
}

/// Overlapping contours of the same orientation leave no seam: for two
/// clockwise squares the resolver reports inside exactly on the union of
/// their boxes, however they overlap.
pub proof fn lemma_two_squares(
    shape: &Shape,
    ax0: i64,
    ay0: i64,
    ax1: i64,
    ay1: i64,
    bx0: i64,
    by0: i64,
    bx1: i64,
    by1: i64,
    p: Vector2,
    r: SignedDistance,
)
    requires
        shape.wf(),
        shape.contours@.len() == 2,
        shape.contours@[0].segments@ == square_lines(ax0, ay0, ax1, ay1),
        shape.contours@[1].segments@ == square_lines(bx0, by0, bx1, by1),
        box_ok(ax0, ay0, ax1, ay1),
        box_ok(bx0, by0, bx1, by1),
        p.is_point(),
        resolved_ok(shape, p, r),
    ensures
        r.sign == 1 <==> in_box(p, ax0, ay0, ax1, ay1) || in_box(p, bx0, by0, bx1, by1),
        r.sign == -1 <==> !(in_box(p, ax0, ay0, ax1, ay1) || in_box(p, bx0, by0, bx1, by1)),
{
    let cs = shape.contours@;
    assert(cs[0].wf() && cs[1].wf());
    lemma_square_winding(ax0, ay0, ax1, ay1, p);
    lemma_square_winding(bx0, by0, bx1, by1, p);
    assert(shape.winding_spec(p) == shape_winding(cs, p, 2));
    assert(shape_winding(cs, p, 2) == shape_winding(cs, p, 1) + polyline_winding(cs[1].outline@, p));
    assert(shape_winding(cs, p, 1) == shape_winding(cs, p, 0) + polyline_winding(cs[0].outline@, p));
}


/// Every admissible distance of a segment has the same magnitude.
pub proof fn lemma_seg_real_unique(s: Segment, p: Vector2, d: SignedDistance, e: SignedDistance)
    requires
        seg_dist_ok(s, p, d),
        seg_dist_ok(s, p, e),
    ensures
        d.real_dist == e.real_dist,
{
    match s {
        Segment::Line(l) => {
            lemma_line_dist_unique(l.from, l.to, p, d, e);
        },
        Segment::Quadratic(q) => {
            let k1 = choose|k: int|
                #[trigger] quad_global_min(q, p, k) && is_isqrt(
                    quad_g(q, p, k) / (ROOT_ONE * ROOT_ONE * ROOT_ONE * ROOT_ONE),
                    d.real_dist as int,
                ) && d.sign == quad_side(q, p, k) && (k == 0 ==> is_isqrt(
                    tangent_dist2(sub_spec(q.ctrl, q.from), sub_spec(p, q.from)),
                    d.extended_dist as int,
                ) && is_isqrt(
                    ortho2_between(sub_spec(q.ctrl, q.from), sub_spec(p, q.from)),
                    d.orthogonality as int,
                )) && (k == ROOT_ONE ==> is_isqrt(
                    tangent_dist2(sub_spec(q.to, q.ctrl), sub_spec(p, q.to)),
                    d.extended_dist as int,
                ) && is_isqrt(
                    ortho2_between(sub_spec(q.to, q.ctrl), sub_spec(p, q.to)),
                    d.orthogonality as int,
                )) && (0 < k < ROOT_ONE ==> d.extended_dist == d.real_dist && d.orthogonality == (
                if quad_g(q, p, k) == 0 || quad_tangent(q, k) == (0int, 0int) {
                    0
                } else {
                    ORTHO_ONE as int
                }));
            let k2 = choose|k: int|
                #[trigger] quad_global_min(q, p, k) && is_isqrt(
                    quad_g(q, p, k) / (ROOT_ONE * ROOT_ONE * ROOT_ONE * ROOT_ONE),
                    e.real_dist as int,
                ) && e.sign == quad_side(q, p, k) && (k == 0 ==> is_isqrt(
                    tangent_dist2(sub_spec(q.ctrl, q.from), sub_spec(p, q.from)),
                    e.extended_dist as int,
                ) && is_isqrt(
                    ortho2_between(sub_spec(q.ctrl, q.from), sub_spec(p, q.from)),
                    e.orthogonality as int,
                )) && (k == ROOT_ONE ==> is_isqrt(
                    tangent_dist2(sub_spec(q.to, q.ctrl), sub_spec(p, q.to)),
                    e.extended_dist as int,
                ) && is_isqrt(
                    ortho2_between(sub_spec(q.to, q.ctrl), sub_spec(p, q.to)),
                    e.orthogonality as int,
                )) && (0 < k < ROOT_ONE ==> e.extended_dist == e.real_dist && e.orthogonality == (
                if quad_g(q, p, k) == 0 || quad_tangent(q, k) == (0int, 0int) {
                    0
                } else {
                    ORTHO_ONE as int
                }));
            assert(quad_g(q, p, k1) <= quad_g(q, p, k2));
            assert(quad_g(q, p, k2) <= quad_g(q, p, k1));
            lemma_isqrt_unique(
                quad_g(q, p, k1) / (ROOT_ONE * ROOT_ONE * ROOT_ONE * ROOT_ONE),
                d.real_dist as int,
                e.real_dist as int,
            );
        },
        Segment::Cubic(_) => {
            let pts = seg_points(s);
            let j1 = choose|j: int| 0 <= j < pts.len() - 1 && #[trigger] line_dist_ok(pts[j], pts[j + 1], p, d);
            let j2 = choose|j: int| 0 <= j < pts.len() - 1 && #[trigger] line_dist_ok(pts[j], pts[j + 1], p, e);
            assert(!e.closer_spec(d));
            assert(!d.closer_spec(e));
        },
    }
}

proof fn lemma_not_closer(shape: &Shape, p: Vector2, r1: SignedDistance, r2: SignedDistance)
    requires
        shape.wf(),
        shape.contours@.len() > 0,
        resolved_ok(shape, p, r1),
        resolved_ok(shape, p, r2),
    ensures
        r1.real_dist >= r2.real_dist,
{
    let cs = shape.contours@;
    let (i, d) = choose|i: int, d: SignedDistance|
        0 <= i < cs.len() && #[trigger] contour_yields(cs[i], p, d) && same_but_sign(d, r1);
    let j = choose|j: int|
        0 <= j < cs[i].segments@.len() && #[trigger] seg_dist_ok(cs[i].segments@[j], p, d);
    assert(contour_none_closer(cs[i], p, r2));
    assert(none_closer(cs[i].segments@[j], p, r2));
    let e = choose|e: SignedDistance|
        #[trigger] seg_dist_ok(cs[i].segments@[j], p, e) && !e.closer_spec(r2);
    lemma_seg_real_unique(cs[i].segments@[j], p, d, e);
}

/// The resolved distance at a point is determined: any two results agree
/// in sign and magnitude.
pub proof fn lemma_resolved_unique(shape: &Shape, p: Vector2, r1: SignedDistance, r2: SignedDistance)
    requires
        shape.wf(),
        p.is_point(),
        resolved_ok(shape, p, r1),
        resolved_ok(shape, p, r2),
    ensures
        r1.sign == r2.sign,
        r1.real_dist == r2.real_dist,
{
    if shape.contours@.len() > 0 {
        lemma_not_closer(shape, p, r1, r2);
        lemma_not_closer(shape, p, r2, r1);
    }
}

/// Rendering is repeatable: two renders of one shape write the same byte
/// for every pixel.
pub proof fn lemma_render_deterministic(shape: &Shape, x: int, y: int, range: int, b1: u8, b2: u8)
    requires
        shape.wf(),
        0 <= x < crate::gen::MAX_SIDE,
        0 <= y < crate::gen::MAX_SIDE,
        pixel_ok(shape, x, y, range, false, b1),
        pixel_ok(shape, x, y, range, false, b2),
    ensures
        b1 == b2,
{
    let p = crate::gen::pixel_center(x, y);
    let d1 = choose|d: SignedDistance|
        #[trigger] resolved_ok(shape, p, d) && b1 == crate::gen::sdf_byte(
            crate::gen::field_value(d, false),
            range * crate::gen::PIXEL,
        );
    let d2 = choose|d: SignedDistance|
        #[trigger] resolved_ok(shape, p, d) && b2 == crate::gen::sdf_byte(
            crate::gen::field_value(d, false),
            range * crate::gen::PIXEL,
        );
    lemma_resolved_unique(shape, p, d1, d2);
}

/// `m^2` times the squared distance from `p` to the point `a + (k / m)(b -
/// a)` of the segment.
pub open spec fn scaled_dist2(a: Vector2, b: Vector2, p: Vector2, k: int, m: int) -> int {
    let qx = k * (b.x - a.x) - m * (p.x - a.x);
    let qy = k * (b.y - a.y) - m * (p.y - a.y);
    qx * qx + qy * qy
}

proof fn lemma_square_expand(k: int, m: int, u: int, v: int)
    ensures
        (k * u - m * v) * (k * u - m * v) == k * k * (u * u) - 2 * k * m * (u * v) + m * m * (v * v),
{
    let (x, y) = (k * u, m * v);
    assert((x - y) * (x - y) == x * x - 2 * (x * y) + y * y) by (nonlinear_arith);
    assert(x * x == k * k * (u * u)) by (nonlinear_arith)
        requires
            x == k * u,
    ;
    assert(x * y == k * m * (u * v)) by (nonlinear_arith)
        requires
            x == k * u,
            y == m * v,
    ;
    assert(y * y == m * m * (v * v)) by (nonlinear_arith)
        requires
            y == m * v,
    ;
    assert(2 * (k * m * (u * v)) == 2 * k * m * (u * v)) by (nonlinear_arith);
}

/// The expansion of `scaled_dist2` over the dot products of `d = b - a`
/// and `w = p - a`.
proof fn lemma_scaled_expand(dx: int, dy: int, wx: int, wy: int, k: int, m: int)
    ensures
        (k * dx - m * wx) * (k * dx - m * wx) + (k * dy - m * wy) * (k * dy - m * wy) == k * k * (dx
            * dx + dy * dy) - 2 * k * m * (dx * wx + dy * wy) + m * m * (wx * wx + wy * wy),
{
    lemma_square_expand(k, m, dx, wx);
    lemma_square_expand(k, m, dy, wy);
    assert(k * k * (dx * dx) + k * k * (dy * dy) == k * k * (dx * dx + dy * dy)) by (nonlinear_arith);
    assert(2 * k * m * (dx * wx) + 2 * k * m * (dy * wy) == 2 * k * m * (dx * wx + dy * wy))
        by (nonlinear_arith);
    assert(m * m * (wx * wx) + m * m * (wy * wy) == m * m * (wx * wx + wy * wy)) by (nonlinear_arith);
}

/// The distance to a line segment is the least distance to any of its
/// points: no point `a + t (b - a)` with `t = k / m` in `[0, 1]` is closer
/// than `line_dist2` (scaled by `m^2`), and the distance is reached at a
/// parameter clamped to `[0, 1]`; it is never negative.
pub proof fn lemma_line_distance_is_least(a: Vector2, b: Vector2, p: Vector2, k: int, m: int)
    requires
        a.is_point(),
        b.is_point(),
        p.is_point(),
        0 <= k <= m,
        0 < m,
    ensures
        0 <= line_dist2(a, b, p),
        line_dist2(a, b, p) * (m * m) <= scaled_dist2(a, b, p, k, m),
        exists|k1: int, m1: int|
            0 <= k1 <= m1 && 0 < m1 && line_dist2(a, b, p) == #[trigger] scaled_dist2(
                a,
                b,
                p,
                k1,
                m1,
            ) / (m1 * m1),
{
    let d = sub_spec(b, a);
    let w = sub_spec(p, a);
    let (dx, dy, wx, wy) = ((b.x - a.x) as int, (b.y - a.y) as int, (p.x - a.x) as int, (p.y
        - a.y) as int);
    assert(d.x == dx && d.y == dy && w.x == wx && w.y == wy);
    let den = dx * dx + dy * dy;
    let tn = wx * dx + wy * dy;
    let ww = wx * wx + wy * wy;
    let c = dx * wy - dy * wx;
    assert(dot_spec(d, d) == den && dot_spec(w, d) == tn && cross_spec(d, w) == c);
    assert(dist2_spec(p, a) == ww);
    lemma_lagrange(d, w);
    assert(den * ww == tn * tn + c * c);
    lemma_scaled_expand(dx, dy, wx, wy, k, m);
    let q = scaled_dist2(a, b, p, k, m);
    assert(q == k * k * den - 2 * k * m * tn + m * m * ww);
    assert(den >= 0 && ww >= 0) by (nonlinear_arith)
        requires
            den == dx * dx + dy * dy,
            ww == wx * wx + wy * wy,
    ;
    if den == 0 || tn <= 0 {
        if den == 0 {
            assert(dx == 0 && dy == 0) by (nonlinear_arith)
                requires
                    den == dx * dx + dy * dy,
                    den == 0,
            ;
            assert(tn == 0) by (nonlinear_arith)
                requires
                    dx == 0,
                    dy == 0,
                    tn == wx * dx + wy * dy,
            ;
        }
        assert(k * k * den - 2 * k * m * tn >= 0) by (nonlinear_arith)
            requires
                0 <= k,
                0 < m,
                tn <= 0,
                den >= 0,
        ;
        assert(ww * (m * m) == m * m * ww) by (nonlinear_arith);
        assert((0 * dx - 1 * wx) * (0 * dx - 1 * wx) + (0 * dy - 1 * wy) * (0 * dy - 1 * wy) == ww)
            by (nonlinear_arith)
            requires
                ww == wx * wx + wy * wy,
        ;
        assert(scaled_dist2(a, b, p, 0, 1) == ww);
        assert(line_dist2(a, b, p) == ww);
        assert(scaled_dist2(a, b, p, 0, 1) / (1int * 1int) == ww);
    } else if tn >= den {
        let vb = dist2_spec(p, b);
        assert(vb == (wx - dx) * (wx - dx) + (wy - dy) * (wy - dy));
        assert(vb == ww - 2 * tn + den) by (nonlinear_arith)
            requires
                vb == (wx - dx) * (wx - dx) + (wy - dy) * (wy - dy),
                ww == wx * wx + wy * wy,
                tn == wx * dx + wy * dy,
                den == dx * dx + dy * dy,
        ;
        assert(vb * (m * m) == m * m * ww - 2 * (m * m) * tn + (m * m) * den) by (nonlinear_arith)
            requires
                vb == ww - 2 * tn + den,
        ;
        assert(k * k * den - (m * m) * den == (k - m) * (k + m) * den) by (nonlinear_arith);
        assert(2 * k * m * tn - 2 * (m * m) * tn == 2 * m * (k - m) * tn) by (nonlinear_arith);
        assert((k - m) * (k + m) * den - 2 * m * (k - m) * tn == (m - k) * (2 * m * tn - (k + m)
            * den)) by (nonlinear_arith);
        assert((m - k) * (2 * m * tn - (k + m) * den) >= 0) by (nonlinear_arith)
            requires
                0 <= k <= m,
                0 < m,
                tn >= den,
                den > 0,
        ;
        assert((1 * dx - 1 * wx) * (1 * dx - 1 * wx) + (1 * dy - 1 * wy) * (1 * dy - 1 * wy) == vb)
            by (nonlinear_arith)
            requires
                vb == (wx - dx) * (wx - dx) + (wy - dy) * (wy - dy),
        ;
        assert(scaled_dist2(a, b, p, 1, 1) == vb);
        assert(line_dist2(a, b, p) == vb);
        assert(vb >= 0) by (nonlinear_arith)
            requires
                vb == (wx - dx) * (wx - dx) + (wy - dy) * (wy - dy),
        ;
        assert(scaled_dist2(a, b, p, 1, 1) / (1int * 1int) == vb);
    } else {
        let f = c * c / den;
        assert(line_dist2(a, b, p) == f);
        assert(den * q == k * k * (den * den) - 2 * k * m * (den * tn) + m * m * (den * ww))
            by (nonlinear_arith)
            requires
                q == k * k * den - 2 * k * m * tn + m * m * ww,
        ;
        lemma_square_expand(k, m, den, tn);
        assert(m * m * (den * ww) == m * m * (tn * tn) + m * m * (c * c)) by (nonlinear_arith)
            requires
                den * ww == tn * tn + c * c,
        ;
        assert(den * q == (k * den - m * tn) * (k * den - m * tn) + m * m * (c * c));
        assert((k * den - m * tn) * (k * den - m * tn) >= 0) by (nonlinear_arith);
        vstd::arithmetic::div_mod::lemma_fundamental_div_mod(c * c, den);
        vstd::arithmetic::div_mod::lemma_mod_bound(c * c, den);
        let rem = (c * c) % den;
        assert(den * (f * (m * m)) <= den * q) by (nonlinear_arith)
            requires
                den * q >= m * m * (c * c),
                c * c == den * f + rem,
                0 <= rem,
                den > 0,
        ;
        assert(f * (m * m) <= q) by (nonlinear_arith)
            requires
                den * (f * (m * m)) <= den * q,
                den > 0,
        ;
        assert(f >= 0) by (nonlinear_arith)
            requires
                c * c == den * f + rem,
                rem < den,
                den > 0,
        ;
        // At `t = tn / den` the scaled distance is `den c^2`, whose quotient
        // by `den^2` is the rounded distance.
        lemma_scaled_expand(dx, dy, wx, wy, tn, den);
        let q1 = scaled_dist2(a, b, p, tn, den);
        assert(q1 == den * (c * c)) by (nonlinear_arith)
            requires
                q1 == tn * tn * den - 2 * tn * den * tn + den * den * ww,
                den * ww == tn * tn + c * c,
        ;
        vstd::arithmetic::div_mod::lemma_div_denominator(q1, den, den);
        assert(q1 == (c * c) * den) by (nonlinear_arith)
            requires
                q1 == den * (c * c),
        ;
        vstd::arithmetic::div_mod::lemma_div_multiples_vanish(c * c, den);
        assert(den * (c * c) / den == c * c);
        assert(q1 / den == c * c);
        assert(q1 / (den * den) == f);
    }
}

} // verus!
