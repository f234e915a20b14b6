use vstd::prelude::*;

use crate::font::{BBox, Offset};
use crate::shape::{
    is_closed_chain, seg_end, seg_start, seg_wf, Contour, ContourID, Curve, Line, Quad, Segment,
    Shape, CONTOUR_LIMIT, SEGMENT_LIMIT, contours_wf,
};
use crate::vector::{Vector2, COORD_LIMIT};

verus! {

/// Why a path command was refused.
#[derive(Debug, Clone, Copy, PartialEq, Eq, Structural)]
pub enum PathError {
    /// A contour is still open where none may be.
    ContourNotClosed,
    /// A drawing command or `close` came while no contour was open.
    NoOpenContour,
    /// `close` came on a contour without segments.
    EmptyContour,
    /// A coordinate, once offset, lies beyond `COORD_LIMIT`.
    CoordinateOutOfRange,
    /// The contour would exceed `SEGMENT_LIMIT` segments.
    TooManySegments,
    /// The shape would exceed `CONTOUR_LIMIT` contours.
    TooManyContours,
}

/// A coordinate plus its offset lies within `COORD_LIMIT`.
pub open spec fn fits(v: i64, o: i64) -> bool {
    -COORD_LIMIT <= v + o <= COORD_LIMIT
}

/// The point `(x, y)` moved by `offset`.
pub open spec fn moved(x: i64, y: i64, offset: Offset) -> Vector2 {
    Vector2 { x: (x + offset.x) as i64, y: (y + offset.y) as i64 }
}

/// Segments that run on from `start`, each from the end of the previous.
pub open spec fn open_chain(start: Vector2, segs: Seq<Segment>, last: Vector2) -> bool {
    &&& forall|i: int| 0 <= i < segs.len() ==> seg_wf(#[trigger] segs[i])
    &&& forall|i: int| 0 <= i < segs.len() - 1 ==> seg_end(#[trigger] segs[i]) == seg_start(
        segs[i + 1],
    )
    &&& segs.len() == 0 ==> last == start
    &&& segs.len() > 0 ==> seg_start(segs[0]) == start && seg_end(segs.last()) == last
}

/// Every coordinate fits once moved by the offset.
pub open spec fn all_fit(o: Offset, xs: Seq<i64>, ys: Seq<i64>) -> bool {
    (forall|i: int| 0 <= i < xs.len() ==> fits(#[trigger] xs[i], o.x)) && (forall|i: int|
        0 <= i < ys.len() ==> fits(#[trigger] ys[i], o.y))
}

/// What a drawing command does to the builder: it is refused while no
/// contour is open, then when a point does not fit, then when the contour
/// is full; otherwise `seg` is appended and the contour ends at `to`.
pub open spec fn draw_post(
    o: PathBuilder,
    n: PathBuilder,
    xs: Seq<i64>,
    ys: Seq<i64>,
    seg: Segment,
    to: Vector2,
    r: Result<(), PathError>,
) -> bool {
    &&& (o.start is None ==> r == Err::<(), PathError>(PathError::NoOpenContour))
    &&& (o.start is Some && !all_fit(o.offset, xs, ys) ==> r == Err::<(), PathError>(
        PathError::CoordinateOutOfRange,
    ))
    &&& (o.start is Some && all_fit(o.offset, xs, ys) && o.temp_segments@.len() + 1
        >= SEGMENT_LIMIT ==> r == Err::<(), PathError>(PathError::TooManySegments))
    &&& (o.start is Some && all_fit(o.offset, xs, ys) && o.temp_segments@.len() + 1
        < SEGMENT_LIMIT ==> r is Ok)
    &&& (r is Err ==> n == o)
    &&& (r is Ok ==> n.same_done(&o) && n.start == o.start && n.temp_segments@
        == o.temp_segments@.push(seg) && n.last_point == Some(to))
}

/// What `open_at` does to the builder.
pub open spec fn open_at_post(o: PathBuilder, n: PathBuilder, x: i64, y: i64, r: Result<
    (),
    PathError,
>) -> bool {
    &&& (o.start is Some ==> r == Err::<(), PathError>(PathError::ContourNotClosed))
    &&& (o.start is None && !(fits(x, o.offset.x) && fits(y, o.offset.y)) ==> r == Err::<
        (),
        PathError,
    >(PathError::CoordinateOutOfRange))
    &&& (o.start is None && fits(x, o.offset.x) && fits(y, o.offset.y) ==> r is Ok)
    &&& (r is Err ==> n == o)
    &&& (r is Ok ==> n.same_done(&o) && n.start == Some(moved(x, y, o.offset)) && n.last_point
        == Some(moved(x, y, o.offset)) && n.temp_segments@.len() == 0)
}

/// What `line_to` does to the builder.
pub open spec fn line_to_post(o: PathBuilder, n: PathBuilder, x: i64, y: i64, r: Result<
    (),
    PathError,
>) -> bool {
    draw_post(
        o,
        n,
        seq![x],
        seq![y],
        Segment::Line(Line { from: o.last_point->0, to: moved(x, y, o.offset) }),
        moved(x, y, o.offset),
        r,
    )
}

/// What `quad_to` does to the builder.
pub open spec fn quad_to_post(
    o: PathBuilder,
    n: PathBuilder,
    ctrl_x: i64,
    ctrl_y: i64,
    x: i64,
    y: i64,
    r: Result<(), PathError>,
) -> bool {
    draw_post(
        o,
        n,
        seq![ctrl_x, x],
        seq![ctrl_y, y],
        Segment::Quadratic(
            Quad {
                from: o.last_point->0,
                ctrl: moved(ctrl_x, ctrl_y, o.offset),
                to: moved(x, y, o.offset),
            },
        ),
        moved(x, y, o.offset),
        r,
    )
}

/// What `curve_to` does to the builder.
pub open spec fn curve_to_post(
    o: PathBuilder,
    n: PathBuilder,
    ctrl1_x: i64,
    ctrl1_y: i64,
    ctrl2_x: i64,
    ctrl2_y: i64,
    x: i64,
    y: i64,
    r: Result<(), PathError>,
) -> bool {
    draw_post(
        o,
        n,
        seq![ctrl1_x, ctrl2_x, x],
        seq![ctrl1_y, ctrl2_y, y],
        Segment::Cubic(
            Curve {
                from: o.last_point->0,
                ctrl1: moved(ctrl1_x, ctrl1_y, o.offset),
                ctrl2: moved(ctrl2_x, ctrl2_y, o.offset),
                to: moved(x, y, o.offset),
            },
        ),
        moved(x, y, o.offset),
        r,
    )
}

/// What `close` does to the builder.
pub open spec fn close_post(o: PathBuilder, n: PathBuilder, r: Result<(), PathError>) -> bool {
    &&& (o.start is None ==> r == Err::<(), PathError>(PathError::NoOpenContour))
    &&& (o.start is Some && o.temp_segments@.len() == 0 ==> r == Err::<(), PathError>(
        PathError::EmptyContour,
    ))
    &&& (o.start is Some && o.temp_segments@.len() > 0 && o.contours@.len() >= CONTOUR_LIMIT
        ==> r == Err::<(), PathError>(PathError::TooManyContours))
    &&& (o.start is Some && o.temp_segments@.len() > 0 && o.contours@.len() < CONTOUR_LIMIT
        ==> r is Ok)
    &&& (r is Err ==> n == o)
    &&& (r is Ok ==> {
        &&& n.contours@.len() == o.contours@.len() + 1
        &&& n.contours@.drop_last() == o.contours@
        &&& n.contours@.last().segments@ == closed_segments(
            o.temp_segments@,
            o.start->0,
            o.last_point->0,
        )
        &&& n.start is None
        &&& n.temp_segments@.len() == 0
        &&& n.offset == o.offset
    })
}

/// Builds a shape from the commands of an outline: `open_at`, `line_to`,
/// `quad_to`, `curve_to` and `close`. Every coordinate is moved by the
/// builder's offset.
#[derive(Debug)]
pub struct PathBuilder {
    pub contours: Vec<Contour>,
    pub offset: Offset,
    /// Start of the open contour.
    pub start: Option<Vector2>,
    /// End of the open contour so far.
    pub last_point: Option<Vector2>,
    /// Segments of the open contour.
    pub temp_segments: Vec<Segment>,
}

impl PathBuilder {
    pub open spec fn wf(&self) -> bool {
        &&& contours_wf(self.contours@)
        &&& self.start is Some <==> self.last_point is Some
        &&& self.start is None ==> self.temp_segments@.len() == 0
        &&& self.temp_segments@.len() < SEGMENT_LIMIT
        &&& self.start matches Some(s) ==> s.is_point() && self.last_point->0.is_point()
            && open_chain(s, self.temp_segments@, self.last_point->0)
    }

    /// An open contour, and the contours done, are as before.
    pub open spec fn same_done(&self, o: &PathBuilder) -> bool {
        self.contours@ == o.contours@ && self.offset == o.offset
    }

    pub fn new(offset: Offset) -> (r: PathBuilder)
        ensures
            r.wf(),
            r.contours@.len() == 0,
            r.offset == offset,
            r.start is None,
    {
        PathBuilder {
            contours: Vec::new(),
            offset,
            start: None,
            last_point: None,
            temp_segments: Vec::new(),
        }
    }

    /// The point `(x, y)` moved by the offset, when it fits.
    fn place(&self, x: i64, y: i64) -> (r: Option<Vector2>)
        ensures
            r is Some <==> fits(x, self.offset.x) && fits(y, self.offset.y),
            r matches Some(p) ==> p == moved(x, y, self.offset) && p.is_point(),
    {
        let px = (x as i128) + (self.offset.x as i128);
        let py = (y as i128) + (self.offset.y as i128);
        if -(COORD_LIMIT as i128) <= px && px <= COORD_LIMIT as i128 && -(COORD_LIMIT as i128)
            <= py && py <= COORD_LIMIT as i128 {
            Some(Vector2 { x: px as i64, y: py as i64 })
        } else {
            None
        }
    }

    /// Opens a contour at `(x, y)`.
    pub fn open_at(&mut self, x: i64, y: i64) -> (r: Result<(), PathError>)
        requires
            old(self).wf(),
        ensures
            final(self).wf(),
            open_at_post(*old(self), *final(self), x, y, r),
    {
        if self.start.is_some() {
            return Err(PathError::ContourNotClosed);
        }
        match self.place(x, y) {
            None => Err(PathError::CoordinateOutOfRange),
            Some(p) => {
                self.start = Some(p);
                self.last_point = Some(p);
                Ok(())
            },
        }
    }

    /// Appends `seg` to the open contour (its checks are done).
    fn push_segment(&mut self, seg: Segment)
        requires
            old(self).wf(),
            old(self).start is Some,
            old(self).temp_segments@.len() + 1 < SEGMENT_LIMIT,
            seg_wf(seg),
            seg_start(seg) == old(self).last_point->0,
            seg_end(seg).is_point(),
        ensures
            final(self).wf(),
            final(self).same_done(old(self)),
            final(self).start == old(self).start,
            final(self).temp_segments@ == old(self).temp_segments@.push(seg),
            final(self).last_point == Some(seg_end(seg)),
    {
        self.temp_segments.push(seg);
        self.last_point = Some(seg_end_exec(&seg));
        proof {
            let s = final(self).temp_segments@;
            assert forall|i: int| 0 <= i < s.len() - 1 implies seg_end(#[trigger] s[i]) == seg_start(
                s[i + 1],
            ) by {
                if i < s.len() - 2 {
                    assert(s[i] == old(self).temp_segments@[i]);
                    assert(s[i + 1] == old(self).temp_segments@[i + 1]);
                }
            }
            assert forall|i: int| 0 <= i < s.len() implies seg_wf(#[trigger] s[i]) by {
                if i < s.len() - 1 {
                    assert(s[i] == old(self).temp_segments@[i]);
                }
            }
        }
    }

    /// Adds a line from the current point to `(x, y)`.
    pub fn line_to(&mut self, x: i64, y: i64) -> (r: Result<(), PathError>)
        requires
            old(self).wf(),
        ensures
            final(self).wf(),
            line_to_post(*old(self), *final(self), x, y, r),
    {
        proof {
            let (xs, ys) = (seq![x], seq![y]);
            assert(xs[0] == x && ys[0] == y);
            assert(all_fit(self.offset, xs, ys) == (fits(x, self.offset.x) && fits(y, self.offset.y)));
        }
        let from = match self.last_point {
            None => {
                return Err(PathError::NoOpenContour);
            },
            Some(p) => p,
        };
        let to = match self.place(x, y) {
            None => {
                return Err(PathError::CoordinateOutOfRange);
            },
            Some(p) => p,
        };
        if self.temp_segments.len() + 1 >= SEGMENT_LIMIT {
            return Err(PathError::TooManySegments);
        }
        self.push_segment(Segment::Line(Line::new(from, to)));
        Ok(())
    }

    /// Adds a quadratic Bezier from the current point through the control
    /// point `(ctrl_x, ctrl_y)` to `(x, y)`.
    pub fn quad_to(&mut self, ctrl_x: i64, ctrl_y: i64, x: i64, y: i64) -> (r: Result<
        (),
        PathError,
    >)
        requires
            old(self).wf(),
        ensures
            final(self).wf(),
            quad_to_post(*old(self), *final(self), ctrl_x, ctrl_y, x, y, r),
    {
        let from = match self.last_point {
            None => {
                return Err(PathError::NoOpenContour);
            },
            Some(p) => p,
        };
        let ctrl = match self.place(ctrl_x, ctrl_y) {
            None => {
                return Err(PathError::CoordinateOutOfRange);
            },
            Some(p) => p,
        };
        let to = match self.place(x, y) {
            None => {
                return Err(PathError::CoordinateOutOfRange);
            },
            Some(p) => p,
        };
        if self.temp_segments.len() + 1 >= SEGMENT_LIMIT {
            return Err(PathError::TooManySegments);
        }
        self.push_segment(Segment::Quadratic(Quad::new(from, ctrl, to)));
        Ok(())
    }

    /// Adds a cubic Bezier from the current point through the control
    /// points `(ctrl1_x, ctrl1_y)` and `(ctrl2_x, ctrl2_y)` to `(x, y)`.
    pub fn curve_to(
        &mut self,
        ctrl1_x: i64,
        ctrl1_y: i64,
        ctrl2_x: i64,
        ctrl2_y: i64,
        x: i64,
        y: i64,
    ) -> (r: Result<(), PathError>)
        requires
            old(self).wf(),
        ensures
            final(self).wf(),
            curve_to_post(*old(self), *final(self), ctrl1_x, ctrl1_y, ctrl2_x, ctrl2_y, x, y, r),
    {
        let from = match self.last_point {
            None => {
                return Err(PathError::NoOpenContour);
            },
            Some(p) => p,
        };
        let ctrl1 = match self.place(ctrl1_x, ctrl1_y) {
            None => {
                return Err(PathError::CoordinateOutOfRange);
            },
            Some(p) => p,
        };
        let ctrl2 = match self.place(ctrl2_x, ctrl2_y) {
            None => {
                return Err(PathError::CoordinateOutOfRange);
            },
            Some(p) => p,
        };
        let to = match self.place(x, y) {
            None => {
                return Err(PathError::CoordinateOutOfRange);
            },
            Some(p) => p,
        };
        if self.temp_segments.len() + 1 >= SEGMENT_LIMIT {
            return Err(PathError::TooManySegments);
        }
        self.push_segment(Segment::Cubic(Curve::new(from, ctrl1, ctrl2, to)));
        Ok(())
    }
}

/// The segments of a contour when it is closed: a line back to the start is
/// added where the last segment does not end there.
pub open spec fn closed_segments(segs: Seq<Segment>, start: Vector2, last: Vector2) -> Seq<
    Segment,
> {
    if last == start {
        segs
    } else {
        segs.push(Segment::Line(Line { from: last, to: start }))
    }
}

impl PathBuilder {
    /// Closes the open contour, with a line back to its start where needed.
    pub fn close(&mut self) -> (r: Result<(), PathError>)
        requires
            old(self).wf(),
        ensures
            final(self).wf(),
            close_post(*old(self), *final(self), r),
    {
        let (start, last) = match (self.start, self.last_point) {
            (Some(s), Some(l)) => (s, l),
            _ => {
                return Err(PathError::NoOpenContour);
            },
        };
        if self.temp_segments.len() == 0 {
            return Err(PathError::EmptyContour);
        }
        if self.contours.len() >= CONTOUR_LIMIT {
            return Err(PathError::TooManyContours);
        }
        let mut segs: Vec<Segment> = Vec::new();
        std::mem::swap(&mut segs, &mut self.temp_segments);
        if !(last.x == start.x && last.y == start.y) {
            segs.push(Segment::Line(Line::new(last, start)));
        }
        proof {
            let t = segs@;
            assert(t == closed_segments(old(self).temp_segments@, start, last));
            let o = old(self).temp_segments@;
            assert forall|i: int| 0 <= i < t.len() implies seg_wf(#[trigger] t[i]) by {
                if i < o.len() {
                    assert(t[i] == o[i]);
                }
            }
            assert forall|i: int| 0 <= i < t.len() - 1 implies seg_end(#[trigger] t[i])
                == seg_start(t[i + 1]) by {
                if i < o.len() - 1 {
                    assert(t[i] == o[i] && t[i + 1] == o[i + 1]);
                } else {
                    assert(t[i] == o[i]);
                }
            }
            assert(t[0] == o[0]);
        }
        let id = ContourID(self.contours.len() as u16);
        let contour = Contour::new(id, segs);
        let ghost before = self.contours@;
        self.contours.push(contour);
        self.start = None;
        self.last_point = None;
        proof {
            assert(final(self).contours@.drop_last() =~= before);
            assert forall|i: int| 0 <= i < self.contours@.len() implies (
            #[trigger] self.contours@[i]).wf() && self.contours@[i].id.0 == i by {
                if i < before.len() {
                    assert(self.contours@[i] == before[i]);
                }
            }
        }
        Ok(())
    }

    /// The shape of the closed contours; refused while a contour is open.
    pub fn build_shape(self) -> (r: Result<Shape, PathError>)
        requires
            self.wf(),
        ensures
            self.start is Some ==> r is Err && r->Err_0 == PathError::ContourNotClosed,
            self.start is None ==> r is Ok && r->Ok_0.wf() && r->Ok_0.contours@
                == self.contours@,
    {
        if self.start.is_some() {
            return Err(PathError::ContourNotClosed);
        }
        Ok(Shape::new(self.contours))
    }
}

/// A path builder together with the pixel box that the glyph is drawn in.
pub struct ShapeBuilder {
    pub path: PathBuilder,
    pub bbox: BBox,
}

impl ShapeBuilder {
    pub open spec fn wf(&self) -> bool {
        self.path.wf()
    }

    /// A builder for a glyph drawn in the box `(0, 0)`-`(width, height)`.
    pub fn new(width: u32, height: u32, offset: Offset) -> (r: ShapeBuilder)
        ensures
            r.wf(),
            r.path.contours@.len() == 0,
            r.path.start is None,
            r.path.offset == offset,
            r.bbox.tl == (Vector2 { x: 0, y: 0 }),
            r.bbox.br == (Vector2 { x: width as i64, y: height as i64 }),
    {
        ShapeBuilder {
            path: PathBuilder::new(offset),
            bbox: BBox::new(Vector2::new(0, 0), Vector2::new(width as i64, height as i64)),
        }
    }

    pub fn open_at(&mut self, x: i64, y: i64) -> (r: Result<(), PathError>)
        requires
            old(self).wf(),
        ensures
            final(self).wf(),
            final(self).bbox == old(self).bbox,
            open_at_post(old(self).path, final(self).path, x, y, r),
    {
        self.path.open_at(x, y)
    }

    pub fn line_to(&mut self, x: i64, y: i64) -> (r: Result<(), PathError>)
        requires
            old(self).wf(),
        ensures
            final(self).wf(),
            final(self).bbox == old(self).bbox,
            line_to_post(old(self).path, final(self).path, x, y, r),
    {
        self.path.line_to(x, y)
    }

    pub fn quad_to(&mut self, ctrl_x: i64, ctrl_y: i64, x: i64, y: i64) -> (r: Result<
        (),
        PathError,
    >)
        requires
            old(self).wf(),
        ensures
            final(self).wf(),
            final(self).bbox == old(self).bbox,
            quad_to_post(old(self).path, final(self).path, ctrl_x, ctrl_y, x, y, r),
    {
        self.path.quad_to(ctrl_x, ctrl_y, x, y)
    }

    pub fn curve_to(
        &mut self,
        ctrl1_x: i64,
        ctrl1_y: i64,
        ctrl2_x: i64,
        ctrl2_y: i64,
        x: i64,
        y: i64,
    ) -> (r: Result<(), PathError>)
        requires
            old(self).wf(),
        ensures
            final(self).wf(),
            final(self).bbox == old(self).bbox,
            curve_to_post(
                old(self).path,
                final(self).path,
                ctrl1_x,
                ctrl1_y,
                ctrl2_x,
                ctrl2_y,
                x,
                y,
                r,
            ),
    {
        self.path.curve_to(ctrl1_x, ctrl1_y, ctrl2_x, ctrl2_y, x, y)
    }

    pub fn close(&mut self) -> (r: Result<(), PathError>)
        requires
            old(self).wf(),
        ensures
            final(self).wf(),
            final(self).bbox == old(self).bbox,
            close_post(old(self).path, final(self).path, r),
    {
        self.path.close()
    }

    /// The shape and its box; refused while a contour is open.
    pub fn build(self) -> (r: Result<(Shape, BBox), PathError>)
        requires
            self.wf(),
        ensures
            self.path.start is Some ==> r is Err && r->Err_0 == PathError::ContourNotClosed,
            self.path.start is None ==> r is Ok && r->Ok_0.0.wf() && r->Ok_0.0.contours@
                == self.path.contours@ && r->Ok_0.1 == self.bbox,
    {
        let bbox = self.bbox;
        match self.path.build_shape() {
            Ok(shape) => Ok((shape, bbox)),
            Err(e) => Err(e),
        }
    }
}

fn seg_end_exec(s: &Segment) -> (r: Vector2)
    ensures
        r == seg_end(*s),
{
    s.end_point()
}

} // verus!
