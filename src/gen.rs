use vstd::prelude::*;

use crate::math::SignedDistance;
use crate::shape::{none_closer, seg_dist_ok, Contour, Segment, Shape};
use crate::vector::Vector2;

verus! {

/// Sub-pixel units per pixel: coordinates are fixed-point numbers with six
/// fractional bits.
pub const PIXEL: i64 = 64;

/// Largest width or height of a generated bitmap, in pixels.
pub const MAX_SIDE: u32 = 16384;

/// Largest distance range, in pixels.
pub const MAX_RANGE: u32 = 65536;

/// A distance field: one byte per pixel, row-major, `data[y * width + x]`
/// for the pixel whose top left corner is `(x, y)` (y grows downwards).
pub struct Bitmap {
    pub data: Vec<u8>,
    pub width: u32,
    pub height: u32,
}

impl Bitmap {
    /// The pixel bytes.
    pub fn data(self) -> (r: Vec<u8>)
        ensures
            r@ == self.data@,
    {
        self.data
    }
}

/// `a` and `b` agree but for the sign.
pub open spec fn same_but_sign(a: SignedDistance, b: SignedDistance) -> bool {
    a.real_dist == b.real_dist && a.extended_dist == b.extended_dist && a.orthogonality
        == b.orthogonality
}

/// `d` is what some segment of contour `c` may yield for `p`.
pub open spec fn contour_yields(c: Contour, p: Vector2, d: SignedDistance) -> bool {
    exists|j: int| 0 <= j < c.segments@.len() && #[trigger] seg_dist_ok(c.segments@[j], p, d)
}

/// No segment of contour `c` is closer to `p` than `r`.
pub open spec fn contour_none_closer(c: Contour, p: Vector2, r: SignedDistance) -> bool {
    forall|j: int| 0 <= j < c.segments@.len() ==> #[trigger] none_closer(c.segments@[j], p, r)
}

/// What the resolver promises for `p`: for an empty shape, the farthest
/// distance, outside. Otherwise the magnitude is that of the nearest
/// segment of any contour, and the sign says whether the winding number of
/// the whole outline around `p` is non-zero (`1`, inside) or zero (`-1`).
pub open spec fn resolved_ok(shape: &Shape, p: Vector2, r: SignedDistance) -> bool {
    let cs = shape.contours@;
    if cs.len() == 0 {
        r == SignedDistance::max_spec()
    } else {
        &&& r.wf()
        &&& r.sign == (if shape.winding_spec(p) != 0 {
            1int
        } else {
            -1int
        })
        &&& exists|i: int, d: SignedDistance|
            0 <= i < cs.len() && #[trigger] contour_yields(cs[i], p, d) && same_but_sign(d, r)
        &&& forall|i: int| 0 <= i < cs.len() ==> #[trigger] contour_none_closer(cs[i], p, r)
    }
}

proof fn lemma_none_closer_trans(s: Segment, p: Vector2, a: SignedDistance, b: SignedDistance)
    requires
        none_closer(s, p, a),
        !a.closer_spec(b),
    ensures
        none_closer(s, p, b),
{
    let e = choose|e: SignedDistance| #[trigger] seg_dist_ok(s, p, e) && !e.closer_spec(a);
    assert(seg_dist_ok(s, p, e) && !e.closer_spec(b));
}

proof fn lemma_contour_none_closer_trans(
    c: Contour,
    p: Vector2,
    a: SignedDistance,
    b: SignedDistance,
)
    requires
        contour_none_closer(c, p, a),
        !a.closer_spec(b),
    ensures
        contour_none_closer(c, p, b),
{
    assert forall|j: int| 0 <= j < c.segments@.len() implies #[trigger] none_closer(
        c.segments@[j],
        p,
        b,
    ) by {
        lemma_none_closer_trans(c.segments@[j], p, a, b);
    }
}

/// Signed distance from `point` to the shape: nearest boundary for the
/// magnitude, the non-zero winding rule for the sign.
pub fn shortest_distance(shape: &Shape, point: Vector2) -> (r: SignedDistance)
    requires
        shape.wf(),
        point.is_point(),
    ensures
        resolved_ok(shape, point, r),
        r.wf(),
{
    let n = shape.contours.len();
    if n == 0 {
        return SignedDistance::max();
    }
    let cs = &shape.contours;
    assert(cs@[0].wf());
    let mut best = cs[0].distance(point);
    assert(contour_yields(cs@[0], point, best));
    assert(contour_none_closer(cs@[0], point, best));
    let mut i: usize = 1;
    while i < n
        invariant
            shape.wf(),
            cs@ == shape.contours@,
            n == cs@.len(),
            point.is_point(),
            1 <= i <= n,
            best.wf(),
            exists|k: int| 0 <= k < i && #[trigger] contour_yields(cs@[k], point, best),
            forall|k: int| 0 <= k < i ==> #[trigger] contour_none_closer(cs@[k], point, best),
        decreases n - i,
    {
        assert(cs@[i as int].wf());
        let d = cs[i].distance(point);
        let ghost old_best = best;
        if d.is_closer(&best) {
            best = d;
        }
        proof {
            assert(contour_yields(cs@[i as int], point, d));
            assert(contour_none_closer(cs@[i as int], point, d));
            if best == d {
                assert forall|k: int| 0 <= k < i + 1 implies #[trigger] contour_none_closer(
                    cs@[k],
                    point,
                    best,
                ) by {
                    if k < i {
                        lemma_contour_none_closer_trans(cs@[k], point, old_best, best);
                    }
                }
            } else {
                lemma_contour_none_closer_trans(cs@[i as int], point, d, best);
            }
        }
        i = i + 1;
    }
    let w = shape.winding_number(point);
    let sign: i8 = if w != 0 {
        1
    } else {
        -1
    };
    let r = SignedDistance { sign, ..best };
    proof {
        let k = choose|k: int| 0 <= k < n && #[trigger] contour_yields(cs@[k], point, best);
        assert(contour_yields(cs@[k], point, best) && same_but_sign(best, r));
        assert forall|k: int| 0 <= k < n implies #[trigger] contour_none_closer(
            cs@[k],
            point,
            r,
        ) by {
            lemma_contour_none_closer_trans(cs@[k], point, best, r);
        }
    }
    r
}

/// The byte for a signed distance `sd` with a range of `range` units:
/// `round(255 * clamp(sd / range + 1/2, 0, 1))`, halves rounded up.
pub open spec fn sdf_byte(sd: int, range: int) -> int {
    let v = (255 * (2 * sd + range) + range) / (2 * range);
    if v < 0 {
        0
    } else if v > 255 {
        255
    } else {
        v
    }
}

/// Exact evaluation of `sdf_byte`.
pub fn to_byte(sd: i64, range: i64) -> (r: u8)
    requires
        -0x10_0000_0000_0000 <= sd <= 0x10_0000_0000_0000,
        1 <= range <= 0x1_0000_0000,
    ensures
        r == sdf_byte(sd as int, range as int),
{
    let num: i128 = 255 * (2 * (sd as i128) + (range as i128)) + (range as i128);
    let den: i128 = 2 * (range as i128);
    if num < 0 {
        proof {
            let q = (num as int) / (den as int);
            vstd::arithmetic::div_mod::lemma_fundamental_div_mod(num as int, den as int);
            vstd::arithmetic::div_mod::lemma_mod_bound(num as int, den as int);
            assert(q < 0) by (nonlinear_arith)
                requires
                    num == den * q + (num as int) % (den as int),
                    0 <= (num as int) % (den as int),
                    num < 0,
                    den > 0,
            ;
        }
        0
    } else {
        let v = ((num as u128) / (den as u128)) as i128;
        if v > 255 {
            255
        } else {
            v as u8
        }
    }
}

/// The centre of pixel `(x, y)`, in sub-pixel units.
pub open spec fn pixel_center(x: int, y: int) -> Vector2 {
    Vector2 { x: (x * PIXEL + PIXEL / 2) as i64, y: (y * PIXEL + PIXEL / 2) as i64 }
}

/// The signed value that a field stores: the real distance, or for a
/// pseudo distance field the extended one.
pub open spec fn field_value(d: SignedDistance, pseudo: bool) -> int {
    d.sign * (if pseudo {
        d.extended_dist
    } else {
        d.real_dist
    })
}

/// The byte that the generator writes for pixel `(x, y)`: one that comes
/// from a resolved distance at the pixel's centre.
pub open spec fn pixel_ok(shape: &Shape, x: int, y: int, range: int, pseudo: bool, b: u8) -> bool {
    exists|d: SignedDistance|
        #[trigger] resolved_ok(shape, pixel_center(x, y), d) && b == sdf_byte(
            field_value(d, pseudo),
            range * PIXEL,
        )
}

/// What a generator promises of its bitmap.
pub open spec fn rendered(shape: &Shape, width: u32, height: u32, range: u32, pseudo: bool, r: Bitmap) -> bool {
    &&& r.width == width
    &&& r.height == height
    &&& r.data@.len() == width * height
    &&& forall|x: int, y: int|
        0 <= x < width && 0 <= y < height ==> #[trigger] pixel_ok(
            shape,
            x,
            y,
            range as int,
            pseudo,
            r.data@[y * width + x],
        )
}

/// Renders the signed distance field of `shape` over `width` x `height`
/// pixels; `range` pixels of distance span the whole byte range.
pub fn gen_sdf(shape: &Shape, width: u32, height: u32, range: u32) -> (r: Bitmap)
    requires
        shape.wf(),
        width <= MAX_SIDE,
        height <= MAX_SIDE,
        1 <= range <= MAX_RANGE,
    ensures
        rendered(shape, width, height, range, false, r),
{
    render(shape, width, height, range, false)
}

/// Renders the pseudo distance field of `shape`: the extended distance,
/// measured to the segments' unclamped lines, with the resolved sign.
pub fn gen_pseudo_sdf(shape: &Shape, width: u32, height: u32, range: u32) -> (r: Bitmap)
    requires
        shape.wf(),
        width <= MAX_SIDE,
        height <= MAX_SIDE,
        1 <= range <= MAX_RANGE,
    ensures
        rendered(shape, width, height, range, true, r),
{
    render(shape, width, height, range, true)
}

fn render(shape: &Shape, width: u32, height: u32, range: u32, pseudo: bool) -> (r: Bitmap)
    requires
        shape.wf(),
        width <= MAX_SIDE,
        height <= MAX_SIDE,
        1 <= range <= MAX_RANGE,
    ensures
        rendered(shape, width, height, range, pseudo, r),
{
    let mut data: Vec<u8> = Vec::new();
    let units: i64 = (range as i64) * PIXEL;
    let mut y: u32 = 0;
    while y < height
        invariant
            shape.wf(),
            width <= MAX_SIDE,
            height <= MAX_SIDE,
            1 <= range <= MAX_RANGE,
            units == range * PIXEL,
            0 <= y <= height,
            data@.len() == y * width,
            forall|px: int, py: int|
                0 <= px < width && 0 <= py < y ==> #[trigger] pixel_ok(
                    shape,
                    px,
                    py,
                    range as int,
                    pseudo,
                    data@[py * width + px],
                ),
        decreases height - y,
    {
        let mut x: u32 = 0;
        while x < width
            invariant
                shape.wf(),
                width <= MAX_SIDE,
                height <= MAX_SIDE,
                1 <= range <= MAX_RANGE,
                units == range * PIXEL,
                0 <= y < height,
                0 <= x <= width,
                data@.len() == y * width + x,
                forall|px: int, py: int|
                    0 <= px < width && 0 <= py < y ==> #[trigger] pixel_ok(
                        shape,
                        px,
                        py,
                        range as int,
                        pseudo,
                        data@[py * width + px],
                    ),
                forall|px: int|
                    0 <= px < x ==> #[trigger] pixel_ok(
                        shape,
                        px,
                        y as int,
                        range as int,
                        pseudo,
                        data@[y * width + px],
                    ),
            decreases width - x,
        {
            let p = Vector2 {
                x: (x as i64) * PIXEL + PIXEL / 2,
                y: (y as i64) * PIXEL + PIXEL / 2,
            };
            assert(p == pixel_center(x as int, y as int));
            let d = shortest_distance(shape, p);
            let v = if pseudo {
                d.extended_signed()
            } else {
                d.real_signed()
            };
            let b = to_byte(v, units);
            let ghost before = data@;
            data.push(b);
            proof {
                assert(y * width + x < (y + 1) * width) by (nonlinear_arith)
                    requires
                        x < width,
                ;
                assert(pixel_ok(shape, x as int, y as int, range as int, pseudo, b));
                assert forall|px: int, py: int|
                    0 <= px < width && 0 <= py < y implies #[trigger] pixel_ok(
                        shape,
                        px,
                        py,
                        range as int,
                        pseudo,
                        data@[py * width + px],
                    ) by {
                    assert(py * width + px < y * width) by (nonlinear_arith)
                        requires
                            py < y,
                            px < width,
                    ;
                    assert(data@[py * width + px] == before[py * width + px]);
                }
                assert forall|px: int| 0 <= px < x + 1 implies #[trigger] pixel_ok(
                    shape,
                    px,
                    y as int,
                    range as int,
                    pseudo,
                    data@[y * width + px],
                ) by {
                    if px < x {
                        assert(data@[y * width + px] == before[y * width + px]);
                    }
                }
            }
            x = x + 1;
        }
        proof {
            assert((y + 1) * width == y * width + width) by (nonlinear_arith);
        }
        y = y + 1;
    }
    proof {
        assert(height * width == width * height) by (nonlinear_arith);
        assert forall|x: int, y: int| 0 <= x < width && 0 <= y < height implies #[trigger] (y
            * width + x) < width * height by {
            assert(y * width + x < width * height) by (nonlinear_arith)
                requires
                    0 <= x < width,
                    0 <= y < height,
            ;
        }
    }
    Bitmap { data, width, height }
}

} // verus!
