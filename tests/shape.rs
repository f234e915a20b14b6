use msdfont::font::{BBox, GlyphId, GlyphOutline, Offset};
use msdfont::gen::{gen_pseudo_sdf, gen_sdf, shortest_distance, PIXEL};
use msdfont::path::{PathBuilder, PathError, ShapeBuilder};
use msdfont::shape::{ContourID, Segment, Shape, Winding};
use msdfont::vector::Vector2;

/// A shape of axis-aligned boxes; `true` traces a box clockwise on screen.
fn boxes(list: &[(i64, i64, i64, i64, bool)]) -> Shape {
    let mut b = PathBuilder::new(Offset::new(0, 0));
    for &(x0, y0, x1, y1, cw) in list {
        b.open_at(x0, y0).unwrap();
        if cw {
            b.line_to(x1, y0).unwrap();
            b.line_to(x1, y1).unwrap();
            b.line_to(x0, y1).unwrap();
        } else {
            b.line_to(x0, y1).unwrap();
            b.line_to(x1, y1).unwrap();
            b.line_to(x1, y0).unwrap();
        }
        b.close().unwrap();
    }
    b.build_shape().unwrap()
}

fn sign_at(shape: &Shape, x: i64, y: i64) -> i8 {
    shortest_distance(shape, Vector2::new(x, y)).sign
}

#[test]
fn winding_follows_the_direction() {
    let cw = boxes(&[(0, 0, 10, 10, true)]);
    assert_eq!(cw.contours[0].winding(), Winding(true));
    assert!(cw.contours[0].winding().is_cw());
    let ccw = boxes(&[(0, 0, 10, 10, false)]);
    assert_eq!(ccw.contours[0].winding(), Winding(false));
    assert!(ccw.contours[0].winding().is_ccw());
}

#[test]
fn unit_square_scenario() {
    let shape = boxes(&[(0, 0, 10, 10, true)]);
    let inside = shortest_distance(&shape, Vector2::new(5, 5));
    assert_eq!(inside.sign, 1);
    assert_eq!(inside.real_dist, 5);
    let outside = shortest_distance(&shape, Vector2::new(15, 5));
    assert_eq!(outside.sign, -1);
    assert_eq!(outside.real_dist, 5);
}

#[test]
fn square_with_hole() {
    let shape = boxes(&[(0, 0, 100, 100, true), (25, 25, 75, 75, false)]);
    assert_eq!(sign_at(&shape, 10, 50), 1);
    assert_eq!(sign_at(&shape, 24, 50), 1);
    assert_eq!(sign_at(&shape, 26, 50), -1);
    assert_eq!(sign_at(&shape, 50, 50), -1);
    assert_eq!(sign_at(&shape, 76, 50), 1);
    assert_eq!(sign_at(&shape, 150, 50), -1);
    assert_eq!(sign_at(&shape, -1, 50), -1);
    assert!(!shape.has_any_overlap());
}

#[test]
fn overlapping_squares_have_no_seam() {
    let shape = boxes(&[(0, 0, 100, 100, true), (50, 0, 150, 100, true)]);
    for x in [1, 25, 49, 50, 51, 75, 99, 100, 101, 125, 149] {
        assert_eq!(sign_at(&shape, x, 50), 1, "x = {}", x);
    }
    assert_eq!(sign_at(&shape, 151, 50), -1);
    assert_eq!(sign_at(&shape, -5, 50), -1);
    // The distance inside the overlap comes from the nearest outline.
    let d = shortest_distance(&shape, Vector2::new(75, 50));
    assert_eq!(d.real_dist, 25);
    assert!(shape.are_overlapping(ContourID(0), ContourID(1)));
    assert!(shape.are_overlapping(ContourID(1), ContourID(0)));
    assert!(!shape.are_overlapping(ContourID(0), ContourID(0)));
    assert!(shape.has_any_overlap());
}

#[test]
fn disjoint_contours_do_not_overlap() {
    let shape = boxes(&[(0, 0, 10, 10, true), (20, 0, 30, 10, true)]);
    assert!(!shape.are_overlapping(ContourID(0), ContourID(1)));
    assert!(!shape.has_any_overlap());
    assert!(!shape.are_overlapping(ContourID(0), ContourID(7)));
}

#[test]
fn empty_shape_is_outside_everywhere() {
    let shape = PathBuilder::new(Offset::uniform(0)).build_shape().unwrap();
    let d = shortest_distance(&shape, Vector2::new(3, 3));
    assert_eq!(d.sign, -1);
    assert_eq!(d.real_dist, msdfont::math::MAX_DIST);
    let bitmap = gen_sdf(&shape, 4, 3, 4);
    assert_eq!(bitmap.data, vec![0u8; 12]);
    assert!(shape.bbox().is_none());
}

#[test]
fn square_bitmap_scenario() {
    // A 10 x 10 pixel square, 5 pixels from each side of a 20 x 20 canvas.
    let p = PIXEL;
    let shape = boxes(&[(5 * p, 5 * p, 15 * p, 15 * p, true)]);
    let bitmap = gen_sdf(&shape, 20, 20, 4);
    assert_eq!(bitmap.width, 20);
    assert_eq!(bitmap.height, 20);
    assert_eq!(bitmap.data.len(), 400);
    assert_eq!(bitmap.data[10 * 20 + 10], 255);
    assert_eq!(bitmap.data[9 * 20 + 9], 255);
    assert_eq!(bitmap.data[0], 0);
    assert_eq!(bitmap.data[19 * 20 + 19], 0);
}

#[test]
fn bitmap_bytes_follow_the_distance() {
    let p = PIXEL;
    let shape = boxes(&[(0, 0, 10 * p, 10 * p, true)]);
    // Pixel (0, 5): its centre is half a pixel inside the left side, so
    // the value is 255 * (0.5 / 4 + 0.5) = 159.375.
    let bitmap = gen_sdf(&shape, 10, 10, 4);
    assert_eq!(bitmap.data[5 * 10], 159);
    // Pixel (9, 5) mirrors it.
    assert_eq!(bitmap.data[5 * 10 + 9], 159);
}

#[test]
fn building_twice_gives_the_same_bitmap() {
    let p = PIXEL;
    let list = [(2 * p, 2 * p, 9 * p, 9 * p, true), (4 * p, 4 * p, 6 * p, 6 * p, false)];
    let a = gen_sdf(&boxes(&list), 12, 12, 3).data();
    let b = gen_sdf(&boxes(&list), 12, 12, 3).data();
    assert_eq!(a, b);
}

#[test]
fn pseudo_field_uses_extended_distance() {
    let p = PIXEL;
    let shape = boxes(&[(2 * p, 2 * p, 8 * p, 8 * p, true)]);
    let real = gen_sdf(&shape, 10, 10, 2);
    let pseudo = gen_pseudo_sdf(&shape, 10, 10, 2);
    // Beside a side both agree; off a corner the extended distance is the
    // distance to the nearer side's line, so the pseudo field is brighter.
    assert_eq!(real.data[5 * 10 + 1], pseudo.data[5 * 10 + 1]);
    assert!(pseudo.data[1 * 10 + 1] > real.data[1 * 10 + 1]);
}

#[test]
fn builder_errors() {
    let mut b = PathBuilder::new(Offset::new(0, 0));
    assert_eq!(b.line_to(1, 1), Err(PathError::NoOpenContour));
    assert_eq!(b.quad_to(1, 1, 2, 2), Err(PathError::NoOpenContour));
    assert_eq!(b.curve_to(1, 1, 2, 2, 3, 3), Err(PathError::NoOpenContour));
    assert_eq!(b.close(), Err(PathError::NoOpenContour));
    assert_eq!(b.open_at(0, 0), Ok(()));
    assert_eq!(b.open_at(0, 0), Err(PathError::ContourNotClosed));
    assert_eq!(b.close(), Err(PathError::EmptyContour));
    assert_eq!(b.line_to(1 << 30, 0), Err(PathError::CoordinateOutOfRange));
    assert_eq!(b.quad_to(0, i64::MAX, 1, 1), Err(PathError::CoordinateOutOfRange));
    assert_eq!(b.line_to(10, 0), Ok(()));
    assert_eq!(b.line_to(10, 10), Ok(()));
    let open = b;
    assert_eq!(open.build_shape().err(), Some(PathError::ContourNotClosed));
}

#[test]
fn offset_moves_every_point() {
    let mut b = PathBuilder::new(Offset::new(100, -50));
    b.open_at(0, 0).unwrap();
    b.line_to(10, 0).unwrap();
    b.quad_to(10, 10, 0, 10).unwrap();
    b.close().unwrap();
    let shape = b.build_shape().unwrap();
    let segs = shape.contours[0].segments();
    assert_eq!(segs.len(), 3);
    assert_eq!(segs[0].start_point(), Vector2::new(100, -50));
    assert_eq!(segs[1].end_point(), Vector2::new(100, -40));
    // The closing line runs back to the start.
    assert_eq!(segs[2], Segment::Line(msdfont::shape::Line::new(Vector2::new(100, -40), Vector2::new(100, -50))));
    let bbox = shape.bbox().unwrap();
    assert_eq!(bbox.tl, Vector2::new(100, -50));
    assert_eq!(bbox.br, Vector2::new(110, -40));
}

#[test]
fn curves_decide_the_inside() {
    // A lens of two quadratic curves and a cubic-bounded blob.
    let mut b = PathBuilder::new(Offset::new(0, 0));
    b.open_at(0, 0).unwrap();
    b.quad_to(320, -320, 640, 0).unwrap();
    b.quad_to(320, 320, 0, 0).unwrap();
    b.close().unwrap();
    b.open_at(1000, 0).unwrap();
    b.curve_to(1200, -300, 1500, -300, 1600, 0).unwrap();
    b.curve_to(1500, 300, 1200, 300, 1000, 0).unwrap();
    b.close().unwrap();
    let shape = b.build_shape().unwrap();
    assert_eq!(sign_at(&shape, 320, 0), 1);
    assert_eq!(sign_at(&shape, 320, 200), -1);
    assert_eq!(sign_at(&shape, 1300, 0), 1);
    assert_eq!(sign_at(&shape, 1300, 400), -1);
    // Centre of the lens: the curves pass at 160 units above and below.
    assert_eq!(shortest_distance(&shape, Vector2::new(320, 0)).real_dist, 160);
}

#[test]
fn extreme_points_of_segments() {
    let q = Segment::Quadratic(msdfont::shape::Quad::new(
        Vector2::new(0, 0),
        Vector2::new(5, 9),
        Vector2::new(-3, 2),
    ));
    assert_eq!(q.highest_point(), Vector2::new(5, 9));
    assert_eq!(q.lowest_point(), Vector2::new(0, 0));
    assert_eq!(q.leftmost_point(), Vector2::new(-3, 2));
    assert_eq!(q.rightmost_point(), Vector2::new(5, 9));
}

#[test]
fn contour_data_surrounds() {
    let shape = boxes(&[(0, 0, 10, 10, true)]);
    let data = shape.contours[0].get_data(Vector2::new(3, 5));
    assert_eq!(data.id, ContourID(0));
    assert!(data.is_cw());
    assert!(!data.is_ccw());
    assert_eq!(data.distance.real_dist, 3);
    assert!(data.is_surrounding());
    assert_eq!(shape.contours[0].id(), ContourID(0));
}

#[test]
fn shape_builder_and_outline() {
    let mut sb = ShapeBuilder::new(10, 10, Offset::uniform(2 * PIXEL));
    sb.open_at(0, 0).unwrap();
    sb.line_to(10 * PIXEL, 0).unwrap();
    sb.line_to(10 * PIXEL, 10 * PIXEL).unwrap();
    sb.line_to(0, 10 * PIXEL).unwrap();
    sb.close().unwrap();
    let (shape, bbox) = sb.build().unwrap();
    assert_eq!(bbox, BBox::new(Vector2::new(0, 0), Vector2::new(10, 10)));
    let outline = GlyphOutline::from_shape(shape, bbox, Offset::uniform(2 * PIXEL));
    assert_eq!(outline.width(), 10);
    assert_eq!(outline.height(), 10);
    let bitmap = outline.generate_sdf(4).unwrap();
    assert_eq!(bitmap.width, 14);
    assert_eq!(bitmap.height, 14);
    assert_eq!(bitmap.data[7 * 14 + 7], 255);
    assert_eq!(bitmap.data[0], 0);
    assert!(outline.generate_sdf(0).is_none());
    let pseudo = outline.generate_pseudo_sdf(4).unwrap();
    assert_eq!(pseudo.width, 10);
}

#[test]
fn glyph_id_from_char() {
    assert_eq!(GlyphId::from_char('A'), GlyphId(65));
    assert_eq!(GlyphId::from_char('\u{1F600}'), GlyphId(0xF600));
}
