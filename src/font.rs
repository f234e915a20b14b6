use vstd::prelude::*;

use crate::gen::{gen_pseudo_sdf, gen_sdf, rendered, Bitmap, MAX_RANGE, MAX_SIDE, PIXEL};
use crate::math::floor_div;
use crate::shape::Shape;
use crate::vector::Vector2;

verus! {

/// Empty space added around an outline, in sub-pixel units: every
/// coordinate is moved by it.
#[derive(Debug, Clone, Copy, PartialEq, Eq, Structural)]
pub struct Offset {
    pub x: i64,
    pub y: i64,
}

impl Offset {
    pub fn new(x: i64, y: i64) -> (r: Offset)
        ensures
            r.x == x,
            r.y == y,
    {
        Offset { x, y }
    }

    pub fn uniform(offset: i64) -> (r: Offset)
        ensures
            r.x == offset,
            r.y == offset,
    {
        Offset { x: offset, y: offset }
    }
}


/// A rectangle in pixels: `tl` is the top left corner, `br` the bottom
/// right one (y grows downwards).
#[derive(Debug, Clone, Copy, PartialEq, Eq, Structural)]
pub struct BBox {
    pub tl: Vector2,
    pub br: Vector2,
}

impl BBox {
    pub open spec fn wf(self) -> bool {
        self.tl.is_point() && self.br.is_point()
    }

    pub fn new(tl: Vector2, br: Vector2) -> (r: BBox)
        ensures
            r.tl == tl,
            r.br == br,
    {
        BBox { tl, br }
    }

    /// `br.x - tl.x`.
    pub fn width(&self) -> (r: i64)
        requires
            self.wf(),
        ensures
            r == self.br.x - self.tl.x,
    {
        self.br.x - self.tl.x
    }

    /// `br.y - tl.y`.
    pub fn height(&self) -> (r: i64)
        requires
            self.wf(),
        ensures
            r == self.br.y - self.tl.y,
    {
        self.br.y - self.tl.y
    }
}

/// A glyph's shape with the box it is drawn in and the space around it.
pub struct GlyphOutline {
    pub bbox: BBox,
    pub shape: Shape,
    pub offset: Offset,
}

/// Side of the canvas: the outline's side plus the offset, in whole pixels,
/// on both sides.
pub open spec fn canvas_side(side: int, offset: i64) -> int {
    side + 2 * (offset as int / PIXEL as int)
}

impl GlyphOutline {
    pub open spec fn wf(&self) -> bool {
        self.shape.wf() && self.bbox.wf()
    }

    /// An outline from a shape, its box and the space around it.
    pub fn from_shape(shape: Shape, bbox: BBox, offset: Offset) -> (r: GlyphOutline)
        ensures
            r.shape == shape,
            r.bbox == bbox,
            r.offset == offset,
    {
        GlyphOutline { bbox, shape, offset }
    }

    /// Width of the outline's box.
    pub fn width(&self) -> (r: i64)
        requires
            self.wf(),
        ensures
            r == self.bbox.br.x - self.bbox.tl.x,
    {
        self.bbox.width()
    }

    /// Height of the outline's box.
    pub fn height(&self) -> (r: i64)
        requires
            self.wf(),
        ensures
            r == self.bbox.br.y - self.bbox.tl.y,
    {
        self.bbox.height()
    }

    /// The signed distance field over the box grown by the offset on every
    /// side; `None` where that canvas or `range` is out of bounds.
    pub fn generate_sdf(&self, range: u32) -> (r: Option<Bitmap>)
        requires
            self.wf(),
        ensures
            r is Some <==> 0 <= canvas_side(self.bbox.br.x - self.bbox.tl.x, self.offset.x) <= MAX_SIDE && 0
                <= canvas_side(self.bbox.br.y - self.bbox.tl.y, self.offset.y) <= MAX_SIDE && 1 <= range
                <= MAX_RANGE,
            r matches Some(b) ==> rendered(
                &self.shape,
                canvas_side(self.bbox.br.x - self.bbox.tl.x, self.offset.x) as u32,
                canvas_side(self.bbox.br.y - self.bbox.tl.y, self.offset.y) as u32,
                range,
                false,
                b,
            ),
    {
        let w = (self.width() as i128) + 2 * floor_div(self.offset.x as i128, PIXEL as i128);
        let h = (self.height() as i128) + 2 * floor_div(self.offset.y as i128, PIXEL as i128);
        if w < 0 || w > MAX_SIDE as i128 || h < 0 || h > MAX_SIDE as i128 || range < 1 || range
            > MAX_RANGE {
            return None;
        }
        Some(gen_sdf(&self.shape, w as u32, h as u32, range))
    }

    /// The pseudo distance field over the outline's box; `None` where the
    /// box or `range` is out of bounds.
    pub fn generate_pseudo_sdf(&self, range: u32) -> (r: Option<Bitmap>)
        requires
            self.wf(),
        ensures
            r is Some <==> 0 <= self.bbox.br.x - self.bbox.tl.x <= MAX_SIDE && 0 <= self.bbox.br.y
                - self.bbox.tl.y <= MAX_SIDE && 1 <= range <= MAX_RANGE,
            r matches Some(b) ==> rendered(
                &self.shape,
                (self.bbox.br.x - self.bbox.tl.x) as u32,
                (self.bbox.br.y - self.bbox.tl.y) as u32,
                range,
                true,
                b,
            ),
    {
        let w = self.width();
        let h = self.height();
        if w < 0 || w > MAX_SIDE as i64 || h < 0 || h > MAX_SIDE as i64 || range < 1 || range
            > MAX_RANGE {
            return None;
        }
        Some(gen_pseudo_sdf(&self.shape, w as u32, h as u32, range))
    }
}

/// A glyph's index in a font.
#[derive(Debug, Clone, Copy, PartialEq, Eq, Structural)]
pub struct GlyphId(pub u16);

impl GlyphId {
    /// The id whose number is the low 16 bits of the character's code.
    pub fn from_char(c: char) -> (r: GlyphId)
        ensures
            r.0 == (c as u32) % 65536,
    {
        let code = c as u32;
        GlyphId((code % 65536) as u16)
    }
}

} // verus!
