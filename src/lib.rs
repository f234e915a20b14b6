//! Signed distance fields for glyph outlines.
//!
//! An outline is replayed into a [`path::PathBuilder`] as contours of
//! lines, quadratic and cubic Bezier segments. The resulting
//! [`shape::Shape`] is immutable; [`gen::gen_sdf`] samples it at every
//! pixel centre and writes one byte per pixel.
//!
//! All geometry is exact integer arithmetic. Coordinates are fixed-point
//! numbers in sub-pixel units ([`gen::PIXEL`] units per pixel, y growing
//! downwards). Distances to lines are the exact Euclidean distances rounded
//! down to a unit; a quadratic curve is measured at its nearest point on
//! the parameter grid (step `1 / ROOT_ONE`), and a cubic one through a
//! polyline of `FLAT_STEPS` pieces. The
//! sign of a distance comes from the non-zero winding rule over all
//! contours, with curves traced by those polylines; its magnitude from the
//! nearest segment of any contour.

pub mod font;
pub mod gen;
pub mod grid;
pub mod laws;
pub mod math;
pub mod overlaps;
pub mod path;
pub mod shape;
pub mod vector;
