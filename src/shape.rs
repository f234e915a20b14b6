use vstd::prelude::*;

use crate::math::{
    line_dist_ok, quad_dist_ok, signed_distance_from_line, signed_distance_from_quad,
    SignedDistance,
};
use crate::overlaps::{contours_intersect, contours_overlap};
use crate::vector::{cross_spec, Vector2, COORD_LIMIT};

verus! {

/// Dense index of a contour in the order in which it was created.
#[derive(Debug, Clone, Copy, PartialEq, Eq, Hash, Structural)]
pub struct ContourID(pub u16);

/// Orientation of a closed contour.
///
/// `true` means the contour runs clockwise on screen (y grows downwards):
/// it adds the area it encloses. `false` means counter-clockwise: it cuts a
/// hole.
#[derive(Debug, Clone, Copy, PartialEq, Eq, Structural)]
pub struct Winding(pub bool);

impl Winding {
    /// Checks if the winding is clockwise.
    pub fn is_cw(&self) -> (r: bool)
        ensures
            r == self.0,
    {
        self.0
    }

    /// Checks if the winding is counter-clockwise.
    pub fn is_ccw(&self) -> (r: bool)
        ensures
            r == !self.0,
    {
        !self.is_cw()
    }
}

/// A straight segment.
#[derive(Debug, Clone, Copy, PartialEq, Eq, Structural)]
pub struct Line {
    pub from: Vector2,
    pub to: Vector2,
}

/// A quadratic Bezier segment.
#[derive(Debug, Clone, Copy, PartialEq, Eq, Structural)]
pub struct Quad {
    pub from: Vector2,
    pub ctrl: Vector2,
    pub to: Vector2,
}

/// A cubic Bezier segment.
#[derive(Debug, Clone, Copy, PartialEq, Eq, Structural)]
pub struct Curve {
    pub from: Vector2,
    pub ctrl1: Vector2,
    pub ctrl2: Vector2,
    pub to: Vector2,
}

impl Line {
    pub open spec fn wf(self) -> bool {
        self.from.is_point() && self.to.is_point()
    }

    pub fn new(from: Vector2, to: Vector2) -> (r: Line)
        ensures
            r.from == from,
            r.to == to,
    {
        Line { from, to }
    }
}

impl Quad {
    pub open spec fn wf(self) -> bool {
        self.from.is_point() && self.ctrl.is_point() && self.to.is_point()
    }

    pub fn new(from: Vector2, ctrl: Vector2, to: Vector2) -> (r: Quad)
        ensures
            r.from == from,
            r.ctrl == ctrl,
            r.to == to,
    {
        Quad { from, ctrl, to }
    }
}

impl Curve {
    pub open spec fn wf(self) -> bool {
        self.from.is_point() && self.ctrl1.is_point() && self.ctrl2.is_point()
            && self.to.is_point()
    }

    pub fn new(from: Vector2, ctrl1: Vector2, ctrl2: Vector2, to: Vector2) -> (r: Curve)
        ensures
            r.from == from,
            r.ctrl1 == ctrl1,
            r.ctrl2 == ctrl2,
            r.to == to,
    {
        Curve { from, ctrl1, ctrl2, to }
    }
}


/// One piece of a contour.
#[derive(Debug, Clone, Copy, PartialEq, Eq, Structural)]
pub enum Segment {
    Line(Line),
    Quadratic(Quad),
    Cubic(Curve),
}

/// Number of straight pieces that stand for a curve when the inside of an
/// outline is decided.
pub const FLAT_STEPS: i64 = 16;

pub open spec fn seg_start(s: Segment) -> Vector2 {
    match s {
        Segment::Line(l) => l.from,
        Segment::Quadratic(q) => q.from,
        Segment::Cubic(c) => c.from,
    }
}

pub open spec fn seg_end(s: Segment) -> Vector2 {
    match s {
        Segment::Line(l) => l.to,
        Segment::Quadratic(q) => q.to,
        Segment::Cubic(c) => c.to,
    }
}

pub open spec fn seg_wf(s: Segment) -> bool {
    match s {
        Segment::Line(l) => l.wf(),
        Segment::Quadratic(q) => q.wf(),
        Segment::Cubic(c) => c.wf(),
    }
}

/// Coordinate of the point at parameter `k / FLAT_STEPS` of a quadratic
/// Bezier with coordinates `a`, `b`, `c`, rounded down.
pub open spec fn quad_coord(a: int, b: int, c: int, k: int) -> int {
    let n = FLAT_STEPS as int;
    let l = COORD_LIMIT as int;
    ((n - k) * (n - k) * (a + l) + 2 * k * (n - k) * (b + l) + k * k * (c + l)) / (n * n) - l
}

/// Coordinate of the point at parameter `k / FLAT_STEPS` of a cubic
/// Bezier with coordinates `a`, `b`, `c`, `d`, rounded down.
pub open spec fn cubic_coord(a: int, b: int, c: int, d: int, k: int) -> int {
    let n = FLAT_STEPS as int;
    let l = COORD_LIMIT as int;
    let m = n - k;
    (m * m * m * (a + l) + 3 * k * m * m * (b + l) + 3 * k * k * m * (c + l) + k * k * k * (d
        + l)) / (n * n * n) - l
}

/// The `k`-th point (`1 <= k <= FLAT_STEPS`) of the polyline that stands
/// for a segment: the segment's end for a line.
pub open spec fn flat_point(s: Segment, k: int) -> Vector2 {
    match s {
        Segment::Line(l) => l.to,
        Segment::Quadratic(q) => Vector2 {
            x: quad_coord(q.from.x as int, q.ctrl.x as int, q.to.x as int, k) as i64,
            y: quad_coord(q.from.y as int, q.ctrl.y as int, q.to.y as int, k) as i64,
        },
        Segment::Cubic(c) => Vector2 {
            x: cubic_coord(
                c.from.x as int,
                c.ctrl1.x as int,
                c.ctrl2.x as int,
                c.to.x as int,
                k,
            ) as i64,
            y: cubic_coord(
                c.from.y as int,
                c.ctrl1.y as int,
                c.ctrl2.y as int,
                c.to.y as int,
                k,
            ) as i64,
        },
    }
}

/// The points that follow the segment's start on its polyline.
pub open spec fn seg_polyline(s: Segment) -> Seq<Vector2> {
    match s {
        Segment::Line(l) => seq![l.to],
        _ => Seq::new(FLAT_STEPS as nat, |i: int| flat_point(s, i + 1)),
    }
}

/// The closed polyline of a sequence of segments: the first start, then
/// the polyline points of every segment in turn.
pub open spec fn flatten(segs: Seq<Segment>) -> Seq<Vector2>
    decreases segs.len(),
{
    if segs.len() == 0 {
        Seq::empty()
    } else {
        let init = segs.drop_last();
        if init.len() == 0 {
            seq![seg_start(segs.last())] + seg_polyline(segs.last())
        } else {
            flatten(init) + seg_polyline(segs.last())
        }
    }
}

/// Signed crossing of the horizontal ray from `p` towards `+x` with the
/// edge `a`-`b`: `1` where the edge runs towards growing y and passes to
/// the right of `p` (`cross(b - a, p - a) > 0`), `-1` where it runs towards
/// shrinking y and passes to the right of `p`, `0` otherwise. Edges are
/// half-open in y, so a ray through a vertex counts once.
pub open spec fn edge_crossing(a: Vector2, b: Vector2, p: Vector2) -> int {
    let c = cross_spec(
        Vector2 { x: (b.x - a.x) as i64, y: (b.y - a.y) as i64 },
        Vector2 { x: (p.x - a.x) as i64, y: (p.y - a.y) as i64 },
    );
    if a.y <= p.y && p.y < b.y && c > 0 {
        1
    } else if b.y <= p.y && p.y < a.y && c < 0 {
        -1
    } else {
        0
    }
}

/// Winding number of a closed polyline around `p`: the sum of the
/// crossings of its first `n` edges.
pub open spec fn poly_winding(pts: Seq<Vector2>, p: Vector2, n: int) -> int
    decreases n,
{
    if n <= 0 {
        0
    } else {
        poly_winding(pts, p, n - 1) + edge_crossing(pts[n - 1], pts[n], p)
    }
}

/// Winding number of a whole polyline.
pub open spec fn polyline_winding(pts: Seq<Vector2>, p: Vector2) -> int {
    poly_winding(pts, p, pts.len() - 1)
}


/// Sum of `cross(start, end)` over the first `n` segments: twice the signed
/// area enclosed by the chords.
pub open spec fn shoelace_sum(segs: Seq<Segment>, n: int) -> int
    decreases n,
{
    if n <= 0 {
        0
    } else {
        shoelace_sum(segs, n - 1) + cross_spec(seg_start(segs[n - 1]), seg_end(segs[n - 1]))
    }
}

/// The orientation that the shoelace sum gives: positive area in screen
/// space (y grows downwards) is clockwise.
pub open spec fn winding_of(segs: Seq<Segment>) -> Winding {
    Winding(shoelace_sum(segs, segs.len() as int) > 0)
}

/// A closed chain of valid segments: each starts where the previous one
/// ends, and the last ends where the first starts.
pub open spec fn is_closed_chain(segs: Seq<Segment>) -> bool {
    &&& segs.len() >= 1
    &&& forall|i: int| 0 <= i < segs.len() ==> seg_wf(#[trigger] segs[i])
    &&& forall|i: int| 0 <= i < segs.len() - 1 ==> seg_end(#[trigger] segs[i]) == seg_start(
        segs[i + 1],
    )
    &&& seg_end(segs.last()) == seg_start(segs[0])
}

proof fn lemma_quad_coord_bounds(a: int, b: int, c: int, k: int)
    requires
        -COORD_LIMIT <= a <= COORD_LIMIT,
        -COORD_LIMIT <= b <= COORD_LIMIT,
        -COORD_LIMIT <= c <= COORD_LIMIT,
        0 <= k <= FLAT_STEPS,
    ensures
        -COORD_LIMIT <= quad_coord(a, b, c, k) <= COORD_LIMIT,
{
    let n = FLAT_STEPS as int;
    let l = COORD_LIMIT as int;
    let (w0, w1, w2) = ((n - k) * (n - k), 2 * k * (n - k), k * k);
    assert(w0 >= 0 && w1 >= 0 && w2 >= 0 && w0 + w1 + w2 == n * n) by (nonlinear_arith)
        requires
            0 <= k <= n,
            w0 == (n - k) * (n - k),
            w1 == 2 * k * (n - k),
            w2 == k * k,
    ;
    let num = w0 * (a + l) + w1 * (b + l) + w2 * (c + l);
    assert(0 <= num <= (n * n) * (2 * l)) by (nonlinear_arith)
        requires
            w0 >= 0,
            w1 >= 0,
            w2 >= 0,
            w0 + w1 + w2 == n * n,
            0 <= a + l <= 2 * l,
            0 <= b + l <= 2 * l,
            0 <= c + l <= 2 * l,
            num == w0 * (a + l) + w1 * (b + l) + w2 * (c + l),
    ;
    assert(num == (n - k) * (n - k) * (a + l) + 2 * k * (n - k) * (b + l) + k * k * (c + l))
        by (nonlinear_arith)
        requires
            w0 == (n - k) * (n - k),
            w1 == 2 * k * (n - k),
            w2 == k * k,
            num == w0 * (a + l) + w1 * (b + l) + w2 * (c + l),
    ;
    vstd::arithmetic::div_mod::lemma_div_is_ordered(num, (n * n) * (2 * l), n * n);
    vstd::arithmetic::div_mod::lemma_div_multiples_vanish(2 * l, n * n);
    vstd::arithmetic::div_mod::lemma_div_pos_is_pos(num, n * n);
}

proof fn lemma_weighted(w: int, x: int, hi: int)
    requires
        0 <= w,
        0 <= x <= hi,
    ensures
        0 <= w * x <= w * hi,
{
    vstd::arithmetic::mul::lemma_mul_inequality(x, hi, w);
    vstd::arithmetic::mul::lemma_mul_nonnegative(w, x);
    assert(x * w == w * x && hi * w == w * hi) by (nonlinear_arith);
}

proof fn lemma_cubic_coord_bounds(a: int, b: int, c: int, d: int, k: int)
    requires
        -COORD_LIMIT <= a <= COORD_LIMIT,
        -COORD_LIMIT <= b <= COORD_LIMIT,
        -COORD_LIMIT <= c <= COORD_LIMIT,
        -COORD_LIMIT <= d <= COORD_LIMIT,
        0 <= k <= FLAT_STEPS,
    ensures
        -COORD_LIMIT <= cubic_coord(a, b, c, d, k) <= COORD_LIMIT,
{
    let n = FLAT_STEPS as int;
    let l = COORD_LIMIT as int;
    let m = n - k;
    let (w0, w1, w2, w3) = (m * m * m, 3 * k * m * m, 3 * k * k * m, k * k * k);
    assert(w0 >= 0 && w1 >= 0 && w2 >= 0 && w3 >= 0 && w0 + w1 + w2 + w3 == n * n * n)
        by (nonlinear_arith)
        requires
            0 <= k <= n,
            m == n - k,
            w0 == m * m * m,
            w1 == 3 * k * m * m,
            w2 == 3 * k * k * m,
            w3 == k * k * k,
    ;
    let num = w0 * (a + l) + w1 * (b + l) + w2 * (c + l) + w3 * (d + l);
    lemma_weighted(w0, a + l, 2 * l);
    lemma_weighted(w1, b + l, 2 * l);
    lemma_weighted(w2, c + l, 2 * l);
    lemma_weighted(w3, d + l, 2 * l);
    assert(w0 * (2 * l) + w1 * (2 * l) + w2 * (2 * l) + w3 * (2 * l) == (w0 + w1 + w2 + w3) * (2
        * l)) by (nonlinear_arith);
    vstd::arithmetic::div_mod::lemma_div_is_ordered(num, (n * n * n) * (2 * l), n * n * n);
    vstd::arithmetic::div_mod::lemma_div_multiples_vanish(2 * l, n * n * n);
    vstd::arithmetic::div_mod::lemma_div_pos_is_pos(num, n * n * n);
}

/// One coordinate of a point of a quadratic's polyline.
fn quad_coord_exec(a: i64, b: i64, c: i64, k: i64) -> (r: i64)
    requires
        -COORD_LIMIT <= a <= COORD_LIMIT,
        -COORD_LIMIT <= b <= COORD_LIMIT,
        -COORD_LIMIT <= c <= COORD_LIMIT,
        0 <= k <= FLAT_STEPS,
    ensures
        r == quad_coord(a as int, b as int, c as int, k as int),
        -COORD_LIMIT <= r <= COORD_LIMIT,
{
    proof {
        lemma_quad_coord_bounds(a as int, b as int, c as int, k as int);
    }
    let n = FLAT_STEPS;
    let l = COORD_LIMIT;
    let m = n - k;
    proof {
        assert(0 <= m * m <= 256 && 0 <= k * m <= 256 && 0 <= k * k <= 256) by (nonlinear_arith)
            requires
                0 <= k <= 16,
                m == 16 - k,
        ;
        assert(0 <= (m * m) * (a + l) <= 256 * 0x200_0000) by (nonlinear_arith)
            requires
                0 <= m * m <= 256,
                0 <= a + l <= 0x200_0000,
        ;
        assert(0 <= (2 * (k * m)) * (b + l) <= 512 * 0x200_0000) by (nonlinear_arith)
            requires
                0 <= k * m <= 256,
                0 <= b + l <= 0x200_0000,
        ;
        assert(0 <= (k * k) * (c + l) <= 256 * 0x200_0000) by (nonlinear_arith)
            requires
                0 <= k * k <= 256,
                0 <= c + l <= 0x200_0000,
        ;
        assert((m * m) * (a + l) + (2 * (k * m)) * (b + l) + (k * k) * (c + l) == (n - k) * (n
            - k) * (a + l) + 2 * k * (n - k) * (b + l) + k * k * (c + l)) by (nonlinear_arith)
            requires
                m == n - k,
        ;
    }
    let num = (m * m) * (a + l) + (2 * (k * m)) * (b + l) + (k * k) * (c + l);
    num / (n * n) - l
}

/// One coordinate of a point of a cubic's polyline.
fn cubic_coord_exec(a: i64, b: i64, c: i64, d: i64, k: i64) -> (r: i64)
    requires
        -COORD_LIMIT <= a <= COORD_LIMIT,
        -COORD_LIMIT <= b <= COORD_LIMIT,
        -COORD_LIMIT <= c <= COORD_LIMIT,
        -COORD_LIMIT <= d <= COORD_LIMIT,
        0 <= k <= FLAT_STEPS,
    ensures
        r == cubic_coord(a as int, b as int, c as int, d as int, k as int),
        -COORD_LIMIT <= r <= COORD_LIMIT,
{
    proof {
        lemma_cubic_coord_bounds(a as int, b as int, c as int, d as int, k as int);
    }
    let n = FLAT_STEPS;
    let l = COORD_LIMIT;
    let m = n - k;
    proof {
        assert(0 <= m * m <= 256 && 0 <= k * k <= 256 && 0 <= m * m * m <= 4096 && 0 <= k * (m
            * m) <= 4096 && 0 <= (k * k) * m <= 4096 && 0 <= (k * k) * k <= 4096 && k * m * m == k
            * (m * m) && k * k * m == (k * k) * m && k * k * k == (k * k) * k)
            by (nonlinear_arith)
            requires
                0 <= k <= 16,
                m == 16 - k,
        ;
        assert(0 <= (m * m * m) * (a + l) <= 4096 * 0x200_0000) by (nonlinear_arith)
            requires
                0 <= m * m * m <= 4096,
                0 <= a + l <= 0x200_0000,
        ;
        assert(0 <= (3 * (k * m * m)) * (b + l) <= 3 * 4096 * 0x200_0000) by (nonlinear_arith)
            requires
                0 <= k * m * m <= 4096,
                0 <= b + l <= 0x200_0000,
        ;
        assert(0 <= (3 * (k * k * m)) * (c + l) <= 3 * 4096 * 0x200_0000) by (nonlinear_arith)
            requires
                0 <= k * k * m <= 4096,
                0 <= c + l <= 0x200_0000,
        ;
        assert(0 <= (k * k * k) * (d + l) <= 4096 * 0x200_0000) by (nonlinear_arith)
            requires
                0 <= k * k * k <= 4096,
                0 <= d + l <= 0x200_0000,
        ;
        assert((m * m * m) * (a + l) + (3 * (k * m * m)) * (b + l) + (3 * (k * k * m)) * (c + l)
            + (k * k * k) * (d + l) == m * m * m * (a + l) + 3 * k * m * m * (b + l) + 3 * k * k
            * m * (c + l) + k * k * k * (d + l)) by (nonlinear_arith);
    }
    let mm = m * m;
    let mmm = mm * m;
    let kmm = k * mm;
    let kk = k * k;
    let kkm = kk * m;
    let kkk = kk * k;
    let num = mmm * (a + l) + (3 * kmm) * (b + l) + (3 * kkm) * (c + l) + kkk * (d + l);
    num / (n * n * n) - l
}

impl Segment {
    pub fn start_point(&self) -> (r: Vector2)
        ensures
            r == seg_start(*self),
    {
        match self {
            Segment::Line(l) => l.from,
            Segment::Quadratic(q) => q.from,
            Segment::Cubic(c) => c.from,
        }
    }

    pub fn end_point(&self) -> (r: Vector2)
        ensures
            r == seg_end(*self),
    {
        match self {
            Segment::Line(l) => l.to,
            Segment::Quadratic(q) => q.to,
            Segment::Cubic(c) => c.to,
        }
    }

    /// `cross(start, end)`: this segment's term of the shoelace sum.
    pub fn shoelace(&self) -> (r: i128)
        requires
            seg_wf(*self),
        ensures
            r == cross_spec(seg_start(*self), seg_end(*self)),
    {
        let a = self.start_point();
        let b = self.end_point();
        a.cross(b)
    }

    /// The `k`-th point of the polyline that stands for this segment.
    pub fn flat_point(&self, k: i64) -> (r: Vector2)
        requires
            seg_wf(*self),
            1 <= k <= FLAT_STEPS,
        ensures
            r == flat_point(*self, k as int),
            r.is_point(),
    {
        match self {
            Segment::Line(l) => l.to,
            Segment::Quadratic(q) => Vector2 {
                x: quad_coord_exec(q.from.x, q.ctrl.x, q.to.x, k),
                y: quad_coord_exec(q.from.y, q.ctrl.y, q.to.y, k),
            },
            Segment::Cubic(c) => Vector2 {
                x: cubic_coord_exec(c.from.x, c.ctrl1.x, c.ctrl2.x, c.to.x, k),
                y: cubic_coord_exec(c.from.y, c.ctrl1.y, c.ctrl2.y, c.to.y, k),
            },
        }
    }

    /// Appends the points of this segment's polyline that follow its start.
    pub fn push_polyline(&self, pts: &mut Vec<Vector2>)
        requires
            seg_wf(*self),
        ensures
            final(pts)@ == old(pts)@ + seg_polyline(*self),
    {
        match self {
            Segment::Line(l) => {
                pts.push(l.to);
                assert(final(pts)@ =~= old(pts)@ + seg_polyline(*self));
            },
            _ => {
                let mut k: i64 = 1;
                while k <= FLAT_STEPS
                    invariant
                        1 <= k <= FLAT_STEPS + 1,
                        seg_wf(*self),
                        !(*self is Line),
                        pts@ =~= old(pts)@ + seg_polyline(*self).take(k - 1 as int),
                    decreases FLAT_STEPS + 1 - k,
                {
                    let q = self.flat_point(k);
                    pts.push(q);
                    assert(seg_polyline(*self).take(k as int) =~= seg_polyline(*self).take(k - 1 as int).push(q));
                    k = k + 1;
                }
                assert(seg_polyline(*self).take(FLAT_STEPS as int) =~= seg_polyline(*self));
            },
        }
    }
}


/// Largest number of segments in one contour.
pub const SEGMENT_LIMIT: usize = 1048576;

/// Axis-aligned box: `tl` holds the smallest coordinates, `br` the largest.
#[derive(Debug, Clone, Copy, PartialEq, Eq, Structural)]
pub struct BoundBox {
    /// Top left point.
    pub tl: Vector2,
    /// Bottom right point.
    pub br: Vector2,
}

pub open spec fn min_spec(a: i64, b: i64) -> i64 {
    if a <= b {
        a
    } else {
        b
    }
}

pub open spec fn max_spec(a: i64, b: i64) -> i64 {
    if a >= b {
        a
    } else {
        b
    }
}

/// The smallest box that holds both boxes.
pub open spec fn box_union(a: BoundBox, b: BoundBox) -> BoundBox {
    BoundBox {
        tl: Vector2 { x: min_spec(a.tl.x, b.tl.x), y: min_spec(a.tl.y, b.tl.y) },
        br: Vector2 { x: max_spec(a.br.x, b.br.x), y: max_spec(a.br.y, b.br.y) },
    }
}

pub open spec fn point_box(p: Vector2) -> BoundBox {
    BoundBox { tl: p, br: p }
}

/// The box of a segment's end and control points (the start is the end of
/// the previous segment in a closed chain).
pub open spec fn seg_box(s: Segment) -> BoundBox {
    match s {
        Segment::Line(l) => point_box(l.to),
        Segment::Quadratic(q) => box_union(point_box(q.ctrl), point_box(q.to)),
        Segment::Cubic(c) => box_union(
            box_union(point_box(c.ctrl1), point_box(c.ctrl2)),
            point_box(c.to),
        ),
    }
}

/// The box of the control points of the first `n` segments (`n >= 1`).
pub open spec fn chain_box(segs: Seq<Segment>, n: int) -> BoundBox
    decreases n,
{
    if n <= 1 {
        seg_box(segs[0])
    } else {
        box_union(chain_box(segs, n - 1), seg_box(segs[n - 1]))
    }
}

impl BoundBox {
    pub open spec fn is_valid(self) -> bool {
        self.tl.is_point() && self.br.is_point()
    }

    pub fn union(&self, o: &BoundBox) -> (r: BoundBox)
        ensures
            r == box_union(*self, *o),
    {
        BoundBox {
            tl: Vector2 {
                x: if self.tl.x <= o.tl.x { self.tl.x } else { o.tl.x },
                y: if self.tl.y <= o.tl.y { self.tl.y } else { o.tl.y },
            },
            br: Vector2 {
                x: if self.br.x >= o.br.x { self.br.x } else { o.br.x },
                y: if self.br.y >= o.br.y { self.br.y } else { o.br.y },
            },
        }
    }

    pub fn of_point(p: Vector2) -> (r: BoundBox)
        ensures
            r == point_box(p),
    {
        BoundBox { tl: p, br: p }
    }
}

impl Segment {
    /// The box of this segment's end and control points.
    pub fn control_box(&self) -> (r: BoundBox)
        ensures
            r == seg_box(*self),
    {
        match self {
            Segment::Line(l) => BoundBox::of_point(l.to),
            Segment::Quadratic(q) => BoundBox::of_point(q.ctrl).union(&BoundBox::of_point(q.to)),
            Segment::Cubic(c) => BoundBox::of_point(c.ctrl1).union(
                &BoundBox::of_point(c.ctrl2),
            ).union(&BoundBox::of_point(c.to)),
        }
    }
}

/// One closed loop of segments, with its orientation, box and the closed
/// polyline that decides which points it encloses.
#[derive(Debug)]
pub struct Contour {
    pub id: ContourID,
    pub segments: Vec<Segment>,
    pub winding: Winding,
    pub bound_box: BoundBox,
    pub outline: Vec<Vector2>,
}

impl Contour {
    pub open spec fn wf(&self) -> bool {
        &&& is_closed_chain(self.segments@)
        &&& self.segments@.len() <= SEGMENT_LIMIT
        &&& self.winding == winding_of(self.segments@)
        &&& self.bound_box == chain_box(self.segments@, self.segments@.len() as int)
        &&& self.outline@ == flatten(self.segments@)
    }

    /// Builds a contour from a closed chain of segments, deriving its
    /// winding, box and polyline.
    pub fn new(id: ContourID, segments: Vec<Segment>) -> (r: Contour)
        requires
            is_closed_chain(segments@),
            segments@.len() <= SEGMENT_LIMIT,
        ensures
            r.wf(),
            r.id == id,
            r.segments@ == segments@,
    {
        let n = segments.len();
        let mut area: i128 = 0;
        let mut bbox = segments[0].control_box();
        let mut outline: Vec<Vector2> = Vec::new();
        outline.push(segments[0].start_point());
        let mut i: usize = 0;
        while i < n
            invariant
                n == segments@.len(),
                is_closed_chain(segments@),
                n <= SEGMENT_LIMIT,
                0 <= i <= n,
                area == shoelace_sum(segments@, i as int),
                -0x8000_0000_0000_0000_0000 * i <= area <= 0x8000_0000_0000_0000_0000 * i,
                i >= 1 ==> bbox == chain_box(segments@, i as int),
                i == 0 ==> bbox == seg_box(segments@[0]),
                i >= 1 ==> outline@ == flatten(segments@.take(i as int)),
                i == 0 ==> outline@ == seq![seg_start(segments@[0])],
            decreases n - i,
        {
            let seg = &segments[i];
            assert(seg_wf(segments@[i as int]));
            let term = seg.shoelace();
            proof {
                let (a, b) = (seg_start(segments@[i as int]), seg_end(segments@[i as int]));
                crate::vector::lemma_mul_small(a.x, b.y);
                crate::vector::lemma_mul_small(a.y, b.x);
            }
            area = area + term;
            if i > 0 {
                bbox = bbox.union(&seg.control_box());
            }
            seg.push_polyline(&mut outline);
            proof {
                let t = segments@.take(i + 1);
                assert(t.drop_last() =~= segments@.take(i as int));
                assert(t.last() == segments@[i as int]);
                if i == 0 {
                    assert(t.drop_last().len() == 0);
                }
            }
            i = i + 1;
        }
        assert(segments@.take(n as int) =~= segments@);
        let winding = Winding(area > 0);
        Contour { id, segments, winding, bound_box: bbox, outline }
    }

    pub fn id(&self) -> (r: ContourID)
        ensures
            r == self.id,
    {
        self.id
    }

    pub fn winding(&self) -> (r: Winding)
        ensures
            r == self.winding,
    {
        self.winding
    }

    pub fn bbox(&self) -> (r: BoundBox)
        ensures
            r == self.bound_box,
    {
        self.bound_box
    }

    pub fn segments(&self) -> (r: &Vec<Segment>)
        ensures
            r@ == self.segments@,
    {
        &self.segments
    }

    /// Winding number of this contour's polyline around `p`.
    pub fn winding_number(&self, p: Vector2) -> (r: i64)
        requires
            self.wf(),
            p.is_point(),
        ensures
            r == polyline_winding(self.outline@, p),
    {
        proof {
            lemma_flatten_points(self.segments@);
        }
        let pts = &self.outline;
        let n = pts.len();
        assert(forall|j: int| 0 <= j < n ==> (#[trigger] pts@[j]).is_point());
        assert(n <= FLAT_STEPS * SEGMENT_LIMIT + 1);
        let mut sum: i64 = 0;
        let mut i: usize = 0;
        while i + 1 < n
            invariant
                n == pts@.len(),
                n >= 1,
                n <= FLAT_STEPS * SEGMENT_LIMIT + 1,
                p.is_point(),
                pts@ == self.outline@,
                forall|j: int| 0 <= j < n ==> (#[trigger] pts@[j]).is_point(),
                0 <= i < n,
                sum == poly_winding(pts@, p, i as int),
                -(i as int) <= sum <= i,
            decreases n - i,
        {
            let c = edge_crossing_exec(pts[i], pts[i + 1], p);
            sum = sum + c;
            i = i + 1;
        }
        sum
    }
}

/// Exact evaluation of `edge_crossing`.
pub fn edge_crossing_exec(a: Vector2, b: Vector2, p: Vector2) -> (r: i64)
    requires
        a.is_point(),
        b.is_point(),
        p.is_point(),
    ensures
        r == edge_crossing(a, b, p),
        -1 <= r <= 1,
{
    let d = Vector2 { x: b.x - a.x, y: b.y - a.y };
    let w = Vector2 { x: p.x - a.x, y: p.y - a.y };
    let c = d.cross(w);
    if a.y <= p.y && p.y < b.y && c > 0 {
        1
    } else if b.y <= p.y && p.y < a.y && c < 0 {
        -1
    } else {
        0
    }
}

pub proof fn lemma_polyline_points(s: Segment)
    requires
        seg_wf(s),
    ensures
        forall|j: int| 0 <= j < seg_polyline(s).len() ==> (#[trigger] seg_polyline(s)[j]).is_point(),
        seg_polyline(s).len() >= 1,
{
    assert forall|j: int| 0 <= j < seg_polyline(s).len() implies (
    #[trigger] seg_polyline(s)[j]).is_point() by {
        match s {
            Segment::Line(l) => {},
            Segment::Quadratic(q) => {
                lemma_quad_coord_bounds(q.from.x as int, q.ctrl.x as int, q.to.x as int, j + 1);
                lemma_quad_coord_bounds(q.from.y as int, q.ctrl.y as int, q.to.y as int, j + 1);
            },
            Segment::Cubic(c) => {
                lemma_cubic_coord_bounds(
                    c.from.x as int,
                    c.ctrl1.x as int,
                    c.ctrl2.x as int,
                    c.to.x as int,
                    j + 1,
                );
                lemma_cubic_coord_bounds(
                    c.from.y as int,
                    c.ctrl1.y as int,
                    c.ctrl2.y as int,
                    c.to.y as int,
                    j + 1,
                );
            },
        }
    }
}

/// Every point of the polyline of valid segments is a point.
pub proof fn lemma_flatten_points(segs: Seq<Segment>)
    requires
        segs.len() >= 1,
        forall|i: int| 0 <= i < segs.len() ==> seg_wf(#[trigger] segs[i]),
    ensures
        forall|j: int| 0 <= j < flatten(segs).len() ==> (#[trigger] flatten(segs)[j]).is_point(),
        flatten(segs).len() >= 2,
        flatten(segs).len() <= FLAT_STEPS * segs.len() + 1,
    decreases segs.len(),
{
    let init = segs.drop_last();
    lemma_polyline_points(segs.last());
    assert(seg_wf(segs[segs.len() - 1]));
    if init.len() == 0 {
        let s = segs.last();
        assert(seg_start(s).is_point()) by {
            match s {
                Segment::Line(l) => {},
                Segment::Quadratic(q) => {},
                Segment::Cubic(c) => {},
            }
        }
    } else {
        assert forall|i: int| 0 <= i < init.len() implies seg_wf(#[trigger] init[i]) by {
            assert(init[i] == segs[i]);
        }
        lemma_flatten_points(init);
    }
}


/// The polyline of a segment, its start included.
pub open spec fn seg_points(s: Segment) -> Seq<Vector2> {
    seq![seg_start(s)] + seg_polyline(s)
}

/// `d` is a distance that the polyline of `s` yields for `p`: that of one
/// of its pieces, and no piece is closer.
pub open spec fn polyline_dist_ok(s: Segment, p: Vector2, d: SignedDistance) -> bool {
    let pts = seg_points(s);
    &&& exists|j: int|
        0 <= j < pts.len() - 1 && #[trigger] line_dist_ok(pts[j], pts[j + 1], p, d)
    &&& forall|j: int, e: SignedDistance|
        0 <= j < pts.len() - 1 && #[trigger] line_dist_ok(pts[j], pts[j + 1], p, e)
            ==> !e.closer_spec(d)
}

/// What `Segment::distance` promises, by kind of segment.
pub open spec fn seg_dist_ok(s: Segment, p: Vector2, d: SignedDistance) -> bool {
    match s {
        Segment::Line(l) => line_dist_ok(l.from, l.to, p, d),
        Segment::Quadratic(q) => quad_dist_ok(q, p, d),
        Segment::Cubic(_) => d.wf() && polyline_dist_ok(s, p, d),
    }
}

/// Some distance that `s` may yield for `p` is not closer than `r`.
pub open spec fn none_closer(s: Segment, p: Vector2, r: SignedDistance) -> bool {
    exists|d: SignedDistance| #[trigger] seg_dist_ok(s, p, d) && !d.closer_spec(r)
}

impl Segment {
    /// Signed distance from `point` to this segment. A cubic is measured
    /// through its polyline.
    pub fn distance(&self, point: Vector2) -> (r: SignedDistance)
        requires
            seg_wf(*self),
            point.is_point(),
        ensures
            seg_dist_ok(*self, point, r),
            r.wf(),
    {
        match self {
            Segment::Line(l) => signed_distance_from_line(*l, point),
            Segment::Quadratic(q) => signed_distance_from_quad(*q, point),
            Segment::Cubic(c) => self.polyline_distance(point),
        }
    }

    fn polyline_distance(&self, point: Vector2) -> (r: SignedDistance)
        requires
            seg_wf(*self),
            point.is_point(),
        ensures
            polyline_dist_ok(*self, point, r),
            r.wf(),
    {
        let mut pts: Vec<Vector2> = Vec::new();
        pts.push(self.start_point());
        self.push_polyline(&mut pts);
        proof {
            assert(pts@ =~= seg_points(*self));
            lemma_polyline_points(*self);
            assert(seg_start(*self).is_point()) by {
                match *self {
                    Segment::Line(l) => {},
                    Segment::Quadratic(q) => {},
                    Segment::Cubic(c) => {},
                }
            }
            assert forall|j: int| 0 <= j < pts@.len() implies (#[trigger] pts@[j]).is_point() by {
                if j > 0 {
                    assert(pts@[j] == seg_polyline(*self)[j - 1]);
                }
            }
        }
        let n = pts.len();
        let mut best = signed_distance_from_line(Line { from: pts[0], to: pts[1] }, point);
        proof {
            assert(line_dist_ok(pts@[0], pts@[1], point, best));
            assert forall|j: int, e: SignedDistance|
                0 <= j < 1 && #[trigger] line_dist_ok(pts@[j], pts@[j + 1], point, e)
                    implies !e.closer_spec(best) by {
                crate::math::lemma_line_dist_unique(pts@[j], pts@[j + 1], point, best, e);
            }
        }
        let mut i: usize = 1;
        while i + 1 < n
            invariant
                n == pts@.len(),
                n >= 2,
                pts@ == seg_points(*self),
                forall|j: int| 0 <= j < n ==> (#[trigger] pts@[j]).is_point(),
                point.is_point(),
                1 <= i < n,
                best.wf(),
                exists|j: int| 0 <= j < i && #[trigger] line_dist_ok(pts@[j], pts@[j + 1], point, best),
                forall|j: int, e: SignedDistance|
                    0 <= j < i && #[trigger] line_dist_ok(pts@[j], pts@[j + 1], point, e)
                        ==> !e.closer_spec(best),
            decreases n - i,
        {
            let d = signed_distance_from_line(Line { from: pts[i], to: pts[i + 1] }, point);
            proof {
                assert forall|j: int, e: SignedDistance|
                    0 <= j < i + 1 && #[trigger] line_dist_ok(pts@[j], pts@[j + 1], point, e)
                        implies !e.closer_spec(if d.closer_spec(best) { d } else { best }) by {
                    if j == i {
                        crate::math::lemma_line_dist_unique(pts@[j], pts@[j + 1], point, d, e);
                    }
                }
            }
            let ghost old_best = best;
            if d.is_closer(&best) {
                best = d;
            }
            proof {
                if best == d {
                    assert(line_dist_ok(pts@[i as int], pts@[i + 1], point, best));
                } else {
                    let j = choose|j: int|
                        0 <= j < i && #[trigger] line_dist_ok(pts@[j], pts@[j + 1], point, old_best);
                    assert(line_dist_ok(pts@[j], pts@[j + 1], point, best));
                }
            }
            i = i + 1;
        }
        best
    }
}

impl Contour {
    /// Signed distance from `point` to the closest segment of this contour,
    /// in the order of `SignedDistance::closer_spec`.
    pub fn distance(&self, point: Vector2) -> (r: SignedDistance)
        requires
            self.wf(),
            point.is_point(),
        ensures
            r.wf(),
            exists|i: int|
                0 <= i < self.segments@.len() && #[trigger] seg_dist_ok(
                    self.segments@[i],
                    point,
                    r,
                ),
            forall|i: int|
                0 <= i < self.segments@.len() ==> #[trigger] none_closer(self.segments@[i], point, r),
    {
        let segs = &self.segments;
        let n = segs.len();
        let mut best = segs[0].distance(point);
        let mut i: usize = 1;
        while i < n
            invariant
                n == segs@.len(),
                segs@ == self.segments@,
                is_closed_chain(segs@),
                point.is_point(),
                1 <= i <= n,
                best.wf(),
                exists|j: int| 0 <= j < i && #[trigger] seg_dist_ok(segs@[j], point, best),
                forall|j: int| 0 <= j < i ==> #[trigger] none_closer(segs@[j], point, best),
            decreases n - i,
        {
            let d = segs[i].distance(point);
            assert(seg_wf(segs@[i as int]));
            let ghost old_best = best;
            if d.is_closer(&best) {
                best = d;
            }
            proof {
                assert forall|j: int| 0 <= j < i + 1 implies #[trigger] none_closer(
                    segs@[j],
                    point,
                    best,
                ) by {
                    if j == i {
                        assert(seg_dist_ok(segs@[j], point, d) && !d.closer_spec(best));
                    } else {
                        assert(none_closer(segs@[j], point, old_best));
                        let e = choose|e: SignedDistance|
                            #[trigger] seg_dist_ok(segs@[j], point, e) && !e.closer_spec(old_best);
                        assert(seg_dist_ok(segs@[j], point, e) && !e.closer_spec(best));
                    }
                }
            }
            i = i + 1;
        }
        best
    }
}


/// Largest number of contours in one shape (a `ContourID` is a `u16`).
pub const CONTOUR_LIMIT: usize = 65536;

/// A glyph: its contours, and which pairs of them intersect.
#[derive(Debug)]
pub struct Shape {
    pub contours: Vec<Contour>,
    /// Pairs `(i, j)`, `i < j`, of contours whose outlines intersect.
    pub overlaps: Vec<(u16, u16)>,
}

/// Valid contours whose ids are their positions.
pub open spec fn contours_wf(cs: Seq<Contour>) -> bool {
    &&& cs.len() <= CONTOUR_LIMIT
    &&& forall|i: int| 0 <= i < cs.len() ==> (#[trigger] cs[i]).wf() && cs[i].id.0 == i
}

/// Sum of the winding numbers of the first `n` contours around `p`.
pub open spec fn shape_winding(cs: Seq<Contour>, p: Vector2, n: int) -> int
    decreases n,
{
    if n <= 0 {
        0
    } else {
        shape_winding(cs, p, n - 1) + polyline_winding(cs[n - 1].outline@, p)
    }
}

impl Shape {
    pub open spec fn wf(&self) -> bool {
        &&& contours_wf(self.contours@)
        &&& forall|k: int|
            0 <= k < self.overlaps@.len() ==> {
                let (i, j) = #[trigger] self.overlaps@[k];
                i < j < self.contours@.len() && contours_overlap(
                    &self.contours@[i as int],
                    &self.contours@[j as int],
                )
            }
        &&& forall|i: int, j: int|
            0 <= i < j < self.contours@.len() && contours_overlap(
                &#[trigger] self.contours@[i],
                &#[trigger] self.contours@[j],
            ) ==> self.overlaps@.contains((i as u16, j as u16))
    }

    /// The winding number of the whole shape around `p`; `p` is inside the
    /// glyph when it is not zero.
    pub open spec fn winding_spec(&self, p: Vector2) -> int {
        shape_winding(self.contours@, p, self.contours@.len() as int)
    }

    /// Builds a shape, recording every intersecting pair of contours.
    pub fn new(contours: Vec<Contour>) -> (r: Shape)
        requires
            contours_wf(contours@),
        ensures
            r.wf(),
            r.contours@ == contours@,
    {
        let n = contours.len();
        let mut overlaps: Vec<(u16, u16)> = Vec::new();
        let mut i: usize = 0;
        while i < n
            invariant
                n == contours@.len(),
                contours_wf(contours@),
                0 <= i <= n,
                forall|k: int|
                    0 <= k < overlaps@.len() ==> {
                        let (a, b) = #[trigger] overlaps@[k];
                        a < b < n && contours_overlap(&contours@[a as int], &contours@[b as int])
                    },
                forall|a: int, b: int|
                    0 <= a < b < n && a < i && contours_overlap(
                        &#[trigger] contours@[a],
                        &#[trigger] contours@[b],
                    ) ==> overlaps@.contains((a as u16, b as u16)),
            decreases n - i,
        {
            let mut j: usize = i + 1;
            while j < n
                invariant
                    n == contours@.len(),
                    contours_wf(contours@),
                    0 <= i < n,
                    i + 1 <= j <= n,
                    forall|k: int|
                        0 <= k < overlaps@.len() ==> {
                            let (a, b) = #[trigger] overlaps@[k];
                            a < b < n && contours_overlap(
                                &contours@[a as int],
                                &contours@[b as int],
                            )
                        },
                    forall|a: int, b: int|
                        0 <= a < b < n && (a < i || (a == i && b < j)) && contours_overlap(
                            &#[trigger] contours@[a],
                            &#[trigger] contours@[b],
                        ) ==> overlaps@.contains((a as u16, b as u16)),
                decreases n - j,
            {
                assert(contours@[i as int].wf() && contours@[j as int].wf());
                if contours_intersect(&contours[i], &contours[j]) {
                    let ghost before = overlaps@;
                    overlaps.push((i as u16, j as u16));
                    proof {
                        assert(overlaps@[overlaps@.len() - 1] == (i as u16, j as u16));
                        assert forall|a: int, b: int|
                            0 <= a < b < n && (a < i || (a == i && b < j + 1)) && contours_overlap(
                                &#[trigger] contours@[a],
                                &#[trigger] contours@[b],
                            ) implies overlaps@.contains((a as u16, b as u16)) by {
                            if a == i && b == j {
                                assert(overlaps@[overlaps@.len() - 1] == (a as u16, b as u16));
                            } else {
                                assert(before.contains((a as u16, b as u16)));
                                let k = choose|k: int| 0 <= k < before.len() && before[k] == (a as u16, b as u16);
                                assert(overlaps@[k] == (a as u16, b as u16));
                            }
                        }
                    }
                }
                j = j + 1;
            }
            i = i + 1;
        }
        Shape { contours, overlaps }
    }

    /// Whether the contours `id1` and `id2` (two different ones) intersect.
    pub fn are_overlapping(&self, id1: ContourID, id2: ContourID) -> (r: bool)
        requires
            self.wf(),
        ensures
            r == (id1.0 != id2.0 && id1.0 < self.contours@.len() && id2.0 < self.contours@.len()
                && contours_overlap(
                &self.contours@[if id1.0 < id2.0 { id1.0 as int } else { id2.0 as int }],
                &self.contours@[if id1.0 < id2.0 { id2.0 as int } else { id1.0 as int }],
            )),
    {
        let a: u16 = if id1.0 < id2.0 { id1.0 } else { id2.0 };
        let b: u16 = if id1.0 < id2.0 { id2.0 } else { id1.0 };
        let mut k: usize = 0;
        while k < self.overlaps.len()
            invariant
                self.wf(),
                a == (if id1.0 < id2.0 { id1.0 } else { id2.0 }),
                b == (if id1.0 < id2.0 { id2.0 } else { id1.0 }),
                k <= self.overlaps@.len(),
                forall|l: int| 0 <= l < k ==> #[trigger] self.overlaps@[l] != (a, b),
            decreases self.overlaps@.len() - k,
        {
            if self.overlaps[k].0 == a && self.overlaps[k].1 == b {
                assert(self.overlaps@[k as int] == (a, b));
                let ghost pr = self.overlaps@[k as int];
                assert(pr.0 < pr.1 < self.contours@.len() && contours_overlap(
                    &self.contours@[pr.0 as int],
                    &self.contours@[pr.1 as int],
                ));
                return true;
            }
            k = k + 1;
        }
        proof {
            if a != b && (b as int) < self.contours@.len() && contours_overlap(
                &self.contours@[a as int],
                &self.contours@[b as int],
            ) {
                assert(self.overlaps@.contains((a as u16, b as u16)));
                let l = choose|l: int| 0 <= l < self.overlaps@.len() && self.overlaps@[l] == (a, b);
                assert(self.overlaps@[l] != (a, b));
            }
        }
        false
    }

    /// Whether any two contours of the shape intersect.
    pub fn has_any_overlap(&self) -> (r: bool)
        requires
            self.wf(),
        ensures
            r == exists|i: int, j: int|
                0 <= i < j < self.contours@.len() && contours_overlap(
                    &#[trigger] self.contours@[i],
                    &#[trigger] self.contours@[j],
                ),
    {
        if self.overlaps.len() > 0 {
            let (i, j) = self.overlaps[0];
            assert(contours_overlap(&self.contours@[i as int], &self.contours@[j as int]));
            true
        } else {
            proof {
                assert forall|i: int, j: int|
                    0 <= i < j < self.contours@.len() implies !contours_overlap(
                    &#[trigger] self.contours@[i],
                    &#[trigger] self.contours@[j],
                ) by {
                    if contours_overlap(&self.contours@[i], &self.contours@[j]) {
                        assert(self.overlaps@.contains((i as u16, j as u16)));
                    }
                }
            }
            false
        }
    }

    /// The winding number of the shape around `p`.
    pub fn winding_number(&self, p: Vector2) -> (r: i64)
        requires
            self.wf(),
            p.is_point(),
        ensures
            r == self.winding_spec(p),
    {
        let n = self.contours.len();
        let mut sum: i64 = 0;
        let mut i: usize = 0;
        while i < n
            invariant
                self.wf(),
                n == self.contours@.len(),
                p.is_point(),
                0 <= i <= n,
                sum == shape_winding(self.contours@, p, i as int),
                -(i as int) * 0x100_0001 <= sum <= (i as int) * 0x100_0001,
            decreases n - i,
        {
            let c = &self.contours[i];
            assert(self.contours@[i as int].wf());
            proof {
                lemma_flatten_points(c.segments@);
                lemma_winding_bound(c.outline@, p, c.outline@.len() - 1);
            }
            let w = c.winding_number(p);
            sum = sum + w;
            i = i + 1;
        }
        sum
    }

    /// Axis-aligned box of all control points, or `None` for an empty shape.
    pub fn bbox(&self) -> (r: Option<BoundBox>)
        requires
            self.wf(),
        ensures
            r is None <==> self.contours@.len() == 0,
            r matches Some(b) ==> shape_box(self.contours@, self.contours@.len() as int) == b,
    {
        let n = self.contours.len();
        if n == 0 {
            return None;
        }
        let mut b = self.contours[0].bbox();
        let mut i: usize = 1;
        while i < n
            invariant
                n == self.contours@.len(),
                1 <= i <= n,
                b == shape_box(self.contours@, i as int),
            decreases n - i,
        {
            b = b.union(&self.contours[i].bbox());
            i = i + 1;
        }
        Some(b)
    }
}

/// Box of the first `n` contours' boxes (`n >= 1`).
pub open spec fn shape_box(cs: Seq<Contour>, n: int) -> BoundBox
    decreases n,
{
    if n <= 1 {
        cs[0].bound_box
    } else {
        box_union(shape_box(cs, n - 1), cs[n - 1].bound_box)
    }
}

/// The winding number of a polyline's first `n` edges is at most `n` in
/// size.
pub proof fn lemma_winding_bound(pts: Seq<Vector2>, p: Vector2, n: int)
    ensures
        n >= 0 ==> -n <= poly_winding(pts, p, n) <= n,
    decreases n,
{
    if n > 0 {
        lemma_winding_bound(pts, p, n - 1);
    }
}


/// The control points of a segment, start and end included.
pub open spec fn seg_controls(s: Segment) -> Seq<Vector2> {
    match s {
        Segment::Line(l) => seq![l.from, l.to],
        Segment::Quadratic(q) => seq![q.from, q.ctrl, q.to],
        Segment::Cubic(c) => seq![c.from, c.ctrl1, c.ctrl2, c.to],
    }
}

/// Of two points, the one with the larger (or smaller) y (or x), the first
/// on a tie.
fn pick(a: Vector2, b: Vector2, by_y: bool, larger: bool) -> (r: Vector2)
    ensures
        r == a || r == b,
        by_y && larger ==> r.y >= a.y && r.y >= b.y,
        by_y && !larger ==> r.y <= a.y && r.y <= b.y,
        !by_y && larger ==> r.x >= a.x && r.x >= b.x,
        !by_y && !larger ==> r.x <= a.x && r.x <= b.x,
{
    let (u, v) = if by_y { (a.y, b.y) } else { (a.x, b.x) };
    if (larger && u < v) || (!larger && u > v) {
        b
    } else {
        a
    }
}

impl Segment {
    fn extreme(&self, by_y: bool, larger: bool) -> (r: Vector2)
        ensures
            seg_controls(*self).contains(r),
            forall|i: int|
                0 <= i < seg_controls(*self).len() ==> {
                    let c = #[trigger] seg_controls(*self)[i];
                    &&& by_y && larger ==> c.y <= r.y
                    &&& by_y && !larger ==> c.y >= r.y
                    &&& !by_y && larger ==> c.x <= r.x
                    &&& !by_y && !larger ==> c.x >= r.x
                },
    {
        let r = match self {
            Segment::Line(l) => pick(l.from, l.to, by_y, larger),
            Segment::Quadratic(q) => pick(pick(q.from, q.ctrl, by_y, larger), q.to, by_y, larger),
            Segment::Cubic(c) => pick(
                pick(pick(c.from, c.ctrl1, by_y, larger), c.ctrl2, by_y, larger),
                c.to,
                by_y,
                larger,
            ),
        };
        proof {
            let cs = seg_controls(*self);
            if cs[0] == r {
                assert(cs.contains(r));
            } else if cs[1] == r {
                assert(cs.contains(r));
            } else if cs.len() > 2 && cs[2] == r {
                assert(cs.contains(r));
            } else {
                assert(cs[cs.len() - 1] == r);
                assert(cs.contains(r));
            }
        }
        r
    }

    /// The control point with the largest y.
    pub fn highest_point(&self) -> (r: Vector2)
        ensures
            seg_controls(*self).contains(r),
            forall|i: int|
                0 <= i < seg_controls(*self).len() ==> (#[trigger] seg_controls(*self)[i]).y <= r.y,
    {
        self.extreme(true, true)
    }

    /// The control point with the smallest y.
    pub fn lowest_point(&self) -> (r: Vector2)
        ensures
            seg_controls(*self).contains(r),
            forall|i: int|
                0 <= i < seg_controls(*self).len() ==> (#[trigger] seg_controls(*self)[i]).y >= r.y,
    {
        self.extreme(true, false)
    }

    /// The control point with the smallest x.
    pub fn leftmost_point(&self) -> (r: Vector2)
        ensures
            seg_controls(*self).contains(r),
            forall|i: int|
                0 <= i < seg_controls(*self).len() ==> (#[trigger] seg_controls(*self)[i]).x >= r.x,
    {
        self.extreme(false, false)
    }

    /// The control point with the largest x.
    pub fn rightmost_point(&self) -> (r: Vector2)
        ensures
            seg_controls(*self).contains(r),
            forall|i: int|
                0 <= i < seg_controls(*self).len() ==> (#[trigger] seg_controls(*self)[i]).x <= r.x,
    {
        self.extreme(false, true)
    }
}

impl Line {
    pub fn calculate_distance(&self, point: Vector2) -> (r: SignedDistance)
        requires
            self.wf(),
            point.is_point(),
        ensures
            line_dist_ok(self.from, self.to, point, r),
    {
        signed_distance_from_line(*self, point)
    }

    /// `cross(from, to)`: this line's term of the shoelace sum.
    pub fn shoelace(&self) -> (r: i128)
        requires
            self.wf(),
        ensures
            r == cross_spec(self.from, self.to),
    {
        Segment::Line(*self).shoelace()
    }
}

impl Quad {
    pub fn calculate_distance(&self, point: Vector2) -> (r: SignedDistance)
        requires
            self.wf(),
            point.is_point(),
        ensures
            quad_dist_ok(*self, point, r),
    {
        signed_distance_from_quad(*self, point)
    }

    /// `cross(from, to)`: this curve's term of the shoelace sum.
    pub fn shoelace(&self) -> (r: i128)
        requires
            self.wf(),
        ensures
            r == cross_spec(self.from, self.to),
    {
        Segment::Quadratic(*self).shoelace()
    }
}

impl Curve {
    pub fn calculate_distance(&self, point: Vector2) -> (r: SignedDistance)
        requires
            self.wf(),
            point.is_point(),
        ensures
            polyline_dist_ok(Segment::Cubic(*self), point, r),
    {
        Segment::Cubic(*self).distance(point)
    }

    /// `cross(from, to)`: this curve's term of the shoelace sum.
    pub fn shoelace(&self) -> (r: i128)
        requires
            self.wf(),
        ensures
            r == cross_spec(self.from, self.to),
    {
        Segment::Cubic(*self).shoelace()
    }
}

/// A segment's distance to a point, with the id and winding of its
/// contour.
#[derive(Debug, Clone, Copy, PartialEq, Eq, Structural)]
pub struct ContourSignedDistance {
    pub distance: SignedDistance,
    pub contour_id: ContourID,
    pub contour_winding: Winding,
}

/// A contour's distance to a point, with the contour's id and winding.
#[derive(Debug, Clone, Copy)]
pub struct ContourData {
    pub id: ContourID,
    pub distance: SignedDistance,
    pub winding: Winding,
}

impl ContourData {
    /// Checks if the winding is clockwise.
    pub fn is_cw(&self) -> (r: bool)
        ensures
            r == self.winding.0,
    {
        self.winding.is_cw()
    }

    /// Checks if the winding is counter-clockwise.
    pub fn is_ccw(&self) -> (r: bool)
        ensures
            r == !self.winding.0,
    {
        self.winding.is_ccw()
    }

    /// Whether the contour surrounds the point whose distance this is: the
    /// point lies on the left of a clockwise contour or on the right of a
    /// counter-clockwise one.
    pub fn is_surrounding(&self) -> (r: bool)
        ensures
            r == ((self.distance.sign > 0 && self.winding.0) || (self.distance.sign < 0
                && !self.winding.0)),
    {
        (self.distance.sign > 0 && self.is_cw()) || (self.distance.sign < 0 && self.is_ccw())
    }
}

impl Contour {
    /// The contour's distance to `point`, with its id and winding.
    pub fn get_data(&self, point: Vector2) -> (r: ContourData)
        requires
            self.wf(),
            point.is_point(),
        ensures
            r.id == self.id,
            r.winding == self.winding,
            exists|i: int|
                0 <= i < self.segments@.len() && #[trigger] seg_dist_ok(
                    self.segments@[i],
                    point,
                    r.distance,
                ),
            forall|i: int|
                0 <= i < self.segments@.len() ==> #[trigger] none_closer(
                    self.segments@[i],
                    point,
                    r.distance,
                ),
    {
        let d = self.distance(point);
        let r = ContourData { id: self.id, distance: d, winding: self.winding };
        assert(r.distance == d);
        r
    }
}

} // verus!
