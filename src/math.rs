use vstd::prelude::*;

use crate::shape::{Line, Quad};
use crate::vector::{cross_spec, dist2_spec, dot_spec, Vector2, COORD_LIMIT};

verus! {

/// Orthogonality is a fixed-point fraction: this value stands for 1
/// (the point-to-segment vector is perpendicular to the tangent).
pub const ORTHO_ONE: i64 = 1024;

/// Floor of the square root.
pub open spec fn is_isqrt(n: int, r: int) -> bool {
    0 <= r && r * r <= n < (r + 1) * (r + 1)
}

/// Integer square root, rounded down.
pub fn isqrt(n: u128) -> (r: u64)
    ensures
        is_isqrt(n as int, r as int),
{
    let mut lo: u128 = 0;
    let mut hi: u128 = 0x1_0000_0000_0000_0000;
    assert(hi * hi > u128::MAX);
    while lo + 1 < hi
        invariant
            lo < hi <= 0x1_0000_0000_0000_0000,
            lo * lo <= n,
            n < hi * hi,
        decreases hi - lo,
    {
        let mid: u128 = lo + (hi - lo) / 2;
        assert(mid * mid < 0x1_0000_0000_0000_0000 * 0x1_0000_0000_0000_0000) by (nonlinear_arith)
            requires
                mid < 0x1_0000_0000_0000_0000,
        ;
        if mid * mid <= n {
            lo = mid;
        } else {
            hi = mid;
        }
    }
    assert(hi == lo + 1);
    lo as u64
}


/// A vector whose components are differences of two points.
pub open spec fn is_diff(v: Vector2) -> bool {
    -2 * COORD_LIMIT <= v.x <= 2 * COORD_LIMIT && -2 * COORD_LIMIT <= v.y <= 2 * COORD_LIMIT
}

pub open spec fn sub_spec(a: Vector2, b: Vector2) -> Vector2 {
    Vector2 { x: (a.x - b.x) as i64, y: (a.y - b.y) as i64 }
}

pub open spec fn sign_of(v: int) -> int {
    if v > 0 {
        1
    } else if v < 0 {
        -1
    } else {
        0
    }
}

pub proof fn lemma_diff_bounds(u: Vector2, v: Vector2)
    requires
        is_diff(u),
        is_diff(v),
    ensures
        -0x8_0000_0000_0000 <= cross_spec(u, v) <= 0x8_0000_0000_0000,
        -0x8_0000_0000_0000 <= dot_spec(u, v) <= 0x8_0000_0000_0000,
        0 <= dot_spec(u, u) <= 0x8_0000_0000_0000,
        u.is_small(),
        v.is_small(),
{
    assert(-0x4_0000_0000_0000 <= u.x * v.y <= 0x4_0000_0000_0000) by (nonlinear_arith)
        requires
            -0x200_0000 <= u.x <= 0x200_0000,
            -0x200_0000 <= v.y <= 0x200_0000,
    ;
    assert(-0x4_0000_0000_0000 <= u.y * v.x <= 0x4_0000_0000_0000) by (nonlinear_arith)
        requires
            -0x200_0000 <= u.y <= 0x200_0000,
            -0x200_0000 <= v.x <= 0x200_0000,
    ;
    assert(-0x4_0000_0000_0000 <= u.x * v.x <= 0x4_0000_0000_0000) by (nonlinear_arith)
        requires
            -0x200_0000 <= u.x <= 0x200_0000,
            -0x200_0000 <= v.x <= 0x200_0000,
    ;
    assert(-0x4_0000_0000_0000 <= u.y * v.y <= 0x4_0000_0000_0000) by (nonlinear_arith)
        requires
            -0x200_0000 <= u.y <= 0x200_0000,
            -0x200_0000 <= v.y <= 0x200_0000,
    ;
    assert(0 <= u.x * u.x <= 0x4_0000_0000_0000) by (nonlinear_arith)
        requires
            -0x200_0000 <= u.x <= 0x200_0000,
    ;
    assert(0 <= u.y * u.y <= 0x4_0000_0000_0000) by (nonlinear_arith)
        requires
            -0x200_0000 <= u.y <= 0x200_0000,
    ;
}

/// Square root, rounded down, of a squared distance below `2^104`.
pub fn sqrt_dist(n: u128) -> (r: i64)
    requires
        n <= 0x100_0000_0000_0000_0000_0000_0000,
    ensures
        is_isqrt(n as int, r as int),
        0 <= r <= MAX_DIST,
{
    let root = isqrt(n);
    proof {
        lemma_isqrt_le(n as int, root as int, MAX_DIST as int);
    }
    root as i64
}

/// `|d|^2 |w|^2 = (d . w)^2 + (d x w)^2`.
pub proof fn lemma_lagrange(d: Vector2, w: Vector2)
    ensures
        dot_spec(d, d) * dot_spec(w, w) == dot_spec(d, w) * dot_spec(d, w) + cross_spec(d, w)
            * cross_spec(d, w),
{
    lemma_lagrange_int(d.x as int, d.y as int, w.x as int, w.y as int);
}

proof fn lemma_lagrange_int(a: int, b: int, c: int, e: int)
    ensures
        (a * a + b * b) * (c * c + e * e) == (a * c + b * e) * (a * c + b * e) + (a * e - b * c)
            * (a * e - b * c),
{
    let (ac, be, ae, bc) = (a * c, b * e, a * e, b * c);
    assert((a * a) * (c * c) == ac * ac) by (nonlinear_arith)
        requires
            ac == a * c,
    ;
    assert((b * b) * (e * e) == be * be) by (nonlinear_arith)
        requires
            be == b * e,
    ;
    assert((a * a) * (e * e) == ae * ae) by (nonlinear_arith)
        requires
            ae == a * e,
    ;
    assert((b * b) * (c * c) == bc * bc) by (nonlinear_arith)
        requires
            bc == b * c,
    ;
    assert(ac * be == ae * bc) by (nonlinear_arith)
        requires
            ac == a * c,
            be == b * e,
            ae == a * e,
            bc == b * c,
    ;
    let (aa, bb, cc, ee) = (a * a, b * b, c * c, e * e);
    assert((aa + bb) * (cc + ee) == aa * cc + aa * ee + bb * cc + bb * ee) by (nonlinear_arith);
    assert((ac + be) * (ac + be) == ac * ac + 2 * (ac * be) + be * be) by (nonlinear_arith);
    assert((ae - bc) * (ae - bc) == ae * ae - 2 * (ae * bc) + bc * bc) by (nonlinear_arith);
}

pub proof fn lemma_div_le_one(k: int, num: int, den: int)
    requires
        0 <= k,
        0 <= num <= den,
        0 < den,
    ensures
        0 <= k * num / den <= k,
{
    assert(k * num <= k * den) by (nonlinear_arith)
        requires
            0 <= k,
            num <= den,
    ;
    assert(0 <= k * num) by (nonlinear_arith)
        requires
            0 <= k,
            0 <= num,
    ;
    vstd::arithmetic::div_mod::lemma_div_is_ordered(k * num, k * den, den);
    assert(k * den == den * k) by (nonlinear_arith);
    vstd::arithmetic::div_mod::lemma_div_multiples_vanish(k, den);
    vstd::arithmetic::div_mod::lemma_div_pos_is_pos(k * num, den);
}

/// A square root of a number at most `m * m` is at most `m`.
pub proof fn lemma_isqrt_le(n: int, r: int, m: int)
    requires
        is_isqrt(n, r),
        0 <= m,
        n <= m * m,
    ensures
        r <= m,
{
    if r > m {
        assert(r * r > m * m) by (nonlinear_arith)
            requires
                r > m,
                m >= 0,
        ;
    }
}

/// Distance from a point to a segment, in sub-pixel units, rounded down.
#[derive(Debug, Clone, Copy, PartialEq, Eq, Structural)]
pub struct SignedDistance {
    /// Distance to the closest point of the segment as drawn (parameter
    /// clamped to `[0, 1]`).
    pub real_dist: i64,
    /// Distance to the closest point at the unclamped parameter.
    pub extended_dist: i64,
    /// `ORTHO_ONE` times the absolute sine of the angle between the tangent
    /// and the vector from the closest point to the query point.
    pub orthogonality: i64,
    /// `1` on the left of the tangent (`cross(tangent, p - closest) > 0`),
    /// `-1` on its right, `0` on the segment or where undefined.
    pub sign: i8,
}

/// Largest distance that a `SignedDistance` holds.
pub const MAX_DIST: i64 = 0x10_0000_0000_0000;

impl SignedDistance {
    pub open spec fn wf(self) -> bool {
        0 <= self.real_dist <= MAX_DIST && 0 <= self.extended_dist <= MAX_DIST && 0
            <= self.orthogonality <= ORTHO_ONE && -1 <= self.sign <= 1
    }

    pub open spec fn max_spec() -> SignedDistance {
        SignedDistance { real_dist: MAX_DIST, extended_dist: MAX_DIST, orthogonality: 0, sign: -1i8 }
    }

    /// The distance reported where there is nothing to measure to: as far
    /// as possible, and outside.
    pub fn max() -> (r: SignedDistance)
        ensures
            r == SignedDistance::max_spec(),
            r.wf(),
    {
        SignedDistance {
            real_dist: MAX_DIST,
            extended_dist: MAX_DIST,
            orthogonality: 0,
            sign: -1,
        }
    }

    /// The order in which distances compete: the smaller real distance
    /// wins; at equal real distance (same sub-pixel unit) the larger
    /// orthogonality wins.
    pub open spec fn closer_spec(self, o: SignedDistance) -> bool {
        self.real_dist < o.real_dist || (self.real_dist == o.real_dist && self.orthogonality
            > o.orthogonality)
    }

    /// Whether `self` comes strictly before `o` in the order of
    /// `closer_spec`.
    pub fn is_closer(&self, o: &SignedDistance) -> (r: bool)
        ensures
            r == self.closer_spec(*o),
    {
        self.real_dist < o.real_dist || (self.real_dist == o.real_dist && self.orthogonality
            > o.orthogonality)
    }

    /// The extended distance with its sign, in sub-pixel units.
    pub fn extended_signed(&self) -> (r: i64)
        requires
            self.wf(),
        ensures
            r == self.sign * self.extended_dist,
            -MAX_DIST <= r <= MAX_DIST,
    {
        proof {
            lemma_mul_bound(self.sign as int, self.extended_dist as int, 1, MAX_DIST as int);
        }
        (self.sign as i64) * self.extended_dist
    }

    /// The distance with its sign, in sub-pixel units.
    pub fn real_signed(&self) -> (r: i64)
        requires
            self.wf(),
        ensures
            r == self.sign * self.real_dist,
            -MAX_DIST <= r <= MAX_DIST,
    {
        proof {
            assert(-MAX_DIST <= self.sign * self.real_dist <= MAX_DIST) by (nonlinear_arith)
                requires
                    -1 <= self.sign <= 1,
                    0 <= self.real_dist <= MAX_DIST,
            ;
        }
        (self.sign as i64) * self.real_dist
    }
}

/// Squared distance from `p` to the segment `a`-`b`, exact as a fraction
/// and here rounded down (integer division of non-negative values).
pub open spec fn line_dist2(a: Vector2, b: Vector2, p: Vector2) -> int {
    let d = sub_spec(b, a);
    let w = sub_spec(p, a);
    let den = dot_spec(d, d);
    let tn = dot_spec(w, d);
    if den == 0 || tn <= 0 {
        dist2_spec(p, a)
    } else if tn >= den {
        dist2_spec(p, b)
    } else {
        cross_spec(d, w) * cross_spec(d, w) / den
    }
}

/// Squared distance from `p` to the infinite line through `a` and `b`,
/// rounded down (to `a` alone when the segment has no length).
pub open spec fn line_ext_dist2(a: Vector2, b: Vector2, p: Vector2) -> int {
    let d = sub_spec(b, a);
    let w = sub_spec(p, a);
    let den = dot_spec(d, d);
    if den == 0 {
        dist2_spec(p, a)
    } else {
        cross_spec(d, w) * cross_spec(d, w) / den
    }
}

/// `ORTHO_ONE^2` times the squared sine of the angle at the closest point,
/// rounded down.
pub open spec fn line_ortho2(a: Vector2, b: Vector2, p: Vector2) -> int {
    let d = sub_spec(b, a);
    let w = sub_spec(p, a);
    let den = dot_spec(d, d);
    let tn = dot_spec(w, d);
    let c = cross_spec(d, w);
    let k = ORTHO_ONE * ORTHO_ONE;
    if den == 0 || c == 0 {
        0
    } else if tn <= 0 {
        k * (c * c) / (den * dist2_spec(p, a))
    } else if tn >= den {
        k * (c * c) / (den * dist2_spec(p, b))
    } else {
        k
    }
}

pub open spec fn line_sign(a: Vector2, b: Vector2, p: Vector2) -> int {
    sign_of(cross_spec(sub_spec(b, a), sub_spec(p, a)))
}

/// Signed distance from `point` to the segment `line`.
pub fn signed_distance_from_line(line: Line, point: Vector2) -> (r: SignedDistance)
    requires
        line.wf(),
        point.is_point(),
    ensures
        r.wf(),
        is_isqrt(line_dist2(line.from, line.to, point), r.real_dist as int),
        is_isqrt(line_ext_dist2(line.from, line.to, point), r.extended_dist as int),
        is_isqrt(line_ortho2(line.from, line.to, point), r.orthogonality as int),
        r.sign == line_sign(line.from, line.to, point),
{
    let a = line.from;
    let b = line.to;
    let p = point;
    let d = b.sub(a);
    let w = p.sub(a);
    let e = p.sub(b);
    proof {
        lemma_diff_bounds(d, w);
        lemma_diff_bounds(w, d);
        lemma_diff_bounds(e, d);
        lemma_lagrange(d, w);
        lemma_lagrange(d, e);
        assert(cross_spec(d, e) == cross_spec(d, w)) by (nonlinear_arith)
            requires
                e.x == w.x - d.x,
                e.y == w.y - d.y,
        ;
        assert(d == sub_spec(b, a));
        assert(w == sub_spec(p, a));
        assert(dot_spec(w, w) == dist2_spec(p, a));
        assert(dot_spec(e, e) == dist2_spec(p, b));
    }
    let den = d.dot(d);
    let tn = w.dot(d);
    let c = d.cross(w);
    let da = w.magnitude2();
    let db = e.magnitude2();
    proof {
        assert(0 <= c * c <= 0x40_0000_0000_0000_0000_0000_0000) by (nonlinear_arith)
            requires
                -0x8_0000_0000_0000 <= c <= 0x8_0000_0000_0000,
        ;
    }
    let cc: u128 = (c * c) as u128;
    let ext: u128 = if den == 0 {
        da as u128
    } else {
        cc / (den as u128)
    };
    let rd2: u128 = if den == 0 || tn <= 0 {
        da as u128
    } else if tn >= den {
        db as u128
    } else {
        ext
    };
    let k: u128 = (ORTHO_ONE as u128) * (ORTHO_ONE as u128);
    proof {
        assert(k * cc <= 0x400_0000_0000_0000_0000_0000_0000_0000) by (nonlinear_arith)
            requires
                k == 0x10_0000,
                cc <= 0x40_0000_0000_0000_0000_0000_0000,
        ;
        assert(den * da <= 0x40_0000_0000_0000_0000_0000_0000) by (nonlinear_arith)
            requires
                0 <= den <= 0x8_0000_0000_0000,
                0 <= da <= 0x8_0000_0000_0000,
        ;
        assert(den * db <= 0x40_0000_0000_0000_0000_0000_0000) by (nonlinear_arith)
            requires
                0 <= den <= 0x8_0000_0000_0000,
                0 <= db <= 0x8_0000_0000_0000,
        ;
    }
    let ortho2: u128 = if den == 0 || c == 0 {
        0
    } else if tn <= 0 {
        proof {
            assert(da > 0) by (nonlinear_arith)
                requires
                    den * da == tn * tn + c * c,
                    c != 0,
                    da >= 0,
            ;
            assert(den * da > 0) by (nonlinear_arith)
                requires
                    den > 0,
                    da > 0,
            ;
        }
        k * cc / ((den as u128) * (da as u128))
    } else if tn >= den {
        proof {
            assert(db > 0) by (nonlinear_arith)
                requires
                    den * db == dot_spec(d, e) * dot_spec(d, e) + c * c,
                    c != 0,
                    db >= 0,
            ;
            assert(den * db > 0) by (nonlinear_arith)
                requires
                    den > 0,
                    db > 0,
            ;
        }
        k * cc / ((den as u128) * (db as u128))
    } else {
        k
    };
    proof {
        assert(cc <= den * da) by (nonlinear_arith)
            requires
                den * da == tn * tn + c * c,
                cc == c * c,
        ;
        assert(cc <= den * db) by (nonlinear_arith)
            requires
                den * db == dot_spec(d, e) * dot_spec(d, e) + c * c,
                cc == c * c,
        ;
        if den != 0 && c != 0 && tn <= 0 {
            lemma_div_le_one(k as int, cc as int, (den * da) as int);
        } else if den != 0 && c != 0 && tn >= den {
            lemma_div_le_one(k as int, cc as int, (den * db) as int);
        }
    }
    let root = isqrt(ortho2);
    proof {
        lemma_isqrt_le(ortho2 as int, root as int, ORTHO_ONE as int);
    }
    let orthogonality = root as i64;
    let sign: i8 = if c > 0 {
        1
    } else if c < 0 {
        -1
    } else {
        0
    };
    let real_dist = sqrt_dist(rd2);
    let extended_dist = sqrt_dist(ext);
    SignedDistance { real_dist, extended_dist, orthogonality, sign }
}


/// Fixed-point scale of the solver: a root `k` stands for `k / ROOT_ONE`.
pub const ROOT_ONE: i64 = 65536;

/// Largest magnitude of a root that the solver searches for, in units of
/// `1 / ROOT_ONE` (that is, 16).
pub const ROOT_LIMIT: i64 = 1048576;

/// Largest magnitude of a coefficient that the solver accepts.
pub const COEF_LIMIT: i128 = 0x400_0000_0000_0000;

/// `ROOT_ONE^3 * f(k / ROOT_ONE)` for `f(t) = a t^3 + b t^2 + c t + d`.
#[verifier::opaque]
pub open spec fn cubic_at(a: int, b: int, c: int, d: int, k: int) -> int {
    let t = ROOT_ONE as int;
    a * (k * k * k) + b * (k * k * t) + c * (k * (t * t)) + d * (t * t * t)
}

/// `k` marks a root of `f` in a window ending at `hi`: `f` vanishes at
/// `k / ROOT_ONE`, or (for `k < hi`) changes sign strictly between `k /
/// ROOT_ONE` and `(k + 1) / ROOT_ONE`, so that a real root lies within `1 /
/// ROOT_ONE` of it.
pub open spec fn is_root_mark(a: int, b: int, c: int, d: int, hi: int, k: int) -> bool {
    cubic_at(a, b, c, d, k) == 0 || (k < hi && sign_of(cubic_at(a, b, c, d, k)) * sign_of(
        cubic_at(a, b, c, d, k + 1),
    ) < 0)
}

/// Bound on `cubic_at` inside the solver's window.
pub const CUBIC_BOUND: i128 = 0x400_0000_0000_0000_0000_0000_0000_0000;

pub open spec fn coef_ok(v: i128) -> bool {
    -COEF_LIMIT <= v <= COEF_LIMIT
}

/// `|x| <= mx` and `|y| <= my` give `|x * y| <= mx * my`.
pub proof fn lemma_mul_bound(x: int, y: int, mx: int, my: int)
    requires
        -mx <= x <= mx,
        -my <= y <= my,
    ensures
        -(mx * my) <= x * y <= mx * my,
{
    if x >= 0 && y >= 0 {
        assert(x * y <= mx * my) by (nonlinear_arith)
            requires
                0 <= x <= mx,
                0 <= y <= my,
        ;
        assert(0 <= x * y) by (nonlinear_arith)
            requires
                0 <= x,
                0 <= y,
        ;
    } else if x >= 0 {
        assert(-(mx * my) <= x * y <= 0) by (nonlinear_arith)
            requires
                0 <= x <= mx,
                -my <= y < 0,
        ;
    } else if y >= 0 {
        assert(-(mx * my) <= x * y <= 0) by (nonlinear_arith)
            requires
                -mx <= x < 0,
                0 <= y <= my,
        ;
    } else {
        assert(0 <= x * y <= mx * my) by (nonlinear_arith)
            requires
                -mx <= x < 0,
                -my <= y < 0,
        ;
    }
}

/// Exact evaluation of `cubic_at`.
pub fn eval_cubic(a: i128, b: i128, c: i128, d: i128, k: i64) -> (r: i128)
    requires
        coef_ok(a),
        coef_ok(b),
        coef_ok(c),
        coef_ok(d),
        -ROOT_LIMIT - 1 <= k <= ROOT_LIMIT + 1,
    ensures
        r == cubic_at(a as int, b as int, c as int, d as int, k as int),
        -CUBIC_BOUND <= r <= CUBIC_BOUND,
{
    proof {
        reveal(cubic_at);
    }
    let t: i128 = ROOT_ONE as i128;
    let k1: i128 = k as i128;
    proof {
        assert(0 <= k1 * k1 <= 0x1000_0000_0000) by (nonlinear_arith)
            requires
                -0x10_0001 <= k1 <= 0x10_0001,
        ;
        assert(-0x2000_0000_0000_0000 <= k1 * k1 * k1 <= 0x2000_0000_0000_0000) by (nonlinear_arith)
            requires
                -0x10_0001 <= k1 <= 0x10_0001,
                0 <= k1 * k1 <= 0x1000_0000_0000,
        ;
        assert(0 <= k1 * k1 * t <= 0x1000_0000_0000_0000) by (nonlinear_arith)
            requires
                0 <= k1 * k1 <= 0x1000_0000_0000,
                t == 0x1_0000,
        ;
        assert(-0x1000_0000_0000_0000_0000_0000 <= k1 * (t * t) <= 0x1000_0000_0000_0000_0000_0000)
            by (nonlinear_arith)
            requires
                -0x10_0001 <= k1 <= 0x10_0001,
                t == 0x1_0000,
        ;
        lemma_mul_bound(a as int, k1 * k1 * k1, 0x400_0000_0000_0000, 0x2000_0000_0000_0000);
        lemma_mul_bound(b as int, k1 * k1 * t, 0x400_0000_0000_0000, 0x1000_0000_0000_0000);
        assert(0x400_0000_0000_0000 * 0x2000_0000_0000_0000 == 0x80_0000_0000_0000_0000_0000_0000_0000);
        assert(0x400_0000_0000_0000 * 0x1000_0000_0000_0000 == 0x40_0000_0000_0000_0000_0000_0000_0000);
        assert(-0x100_0000_0000_0000_0000_0000_0000_0000 <= c * (k1 * (t * t))
            <= 0x100_0000_0000_0000_0000_0000_0000_0000) by (nonlinear_arith)
            requires
                -0x400_0000_0000_0000 <= c <= 0x400_0000_0000_0000,
                -0x10_0001 <= k1 <= 0x10_0001,
                t == 0x1_0000,
        ;
        assert(-0x100_0000_0000_0000_0000_0000_0000_0000 <= d * (t * t * t)
            <= 0x100_0000_0000_0000_0000_0000_0000_0000) by (nonlinear_arith)
            requires
                -0x400_0000_0000_0000 <= d <= 0x400_0000_0000_0000,
                t == 0x1_0000,
        ;
    }
    let k3 = k1 * k1 * k1;
    let k2t = k1 * k1 * t;
    let kt2 = k1 * (t * t);
    let t3 = t * t * t;
    a * k3 + b * k2t + c * kt2 + d * t3
}

/// The forward differences of `f` on the grid. Level 0 is `F(k) =
/// cubic_at(k)`, level 1 is `F(k + 1) - F(k)`, level 2 is the difference of
/// level 1, which is `6a (k + 1) + 2b T`.
#[verifier::opaque]
pub open spec fn level_at(level: int, a: int, b: int, c: int, d: int, k: int) -> int {
    if level == 0 {
        cubic_at(a, b, c, d, k)
    } else if level == 1 {
        cubic_at(a, b, c, d, k + 1) - cubic_at(a, b, c, d, k)
    } else {
        6 * a * (k + 1) + 2 * b * ROOT_ONE
    }
}

/// `cubic_at` at `k + j` for `j` in `{0, 1, 2}`, as a sum over the
/// monomials of `k`.
proof fn lemma_cubic_expand(a: int, b: int, c: int, d: int, k: int)
    ensures
        ({
            let t = ROOT_ONE as int;
            let (ak3, ak2, ak, bk2, bk, ck) = (
                a * (k * k * k),
                a * (k * k),
                a * k,
                b * (k * k),
                b * k,
                c * k,
            );
            &&& cubic_at(a, b, c, d, k) == ak3 + bk2 * t + ck * (t * t) + d * (t * t * t)
            &&& cubic_at(a, b, c, d, k + 1) == ak3 + 3 * ak2 + 3 * ak + a + bk2 * t + 2 * bk * t
                + b * t + ck * (t * t) + c * (t * t) + d * (t * t * t)
            &&& cubic_at(a, b, c, d, k + 2) == ak3 + 6 * ak2 + 12 * ak + 8 * a + bk2 * t + 4 * bk
                * t + 4 * b * t + ck * (t * t) + 2 * c * (t * t) + d * (t * t * t)
        }),
{
    reveal(cubic_at);
    let t = ROOT_ONE as int;
    let (ak3, ak2, ak, bk2, bk, ck) = (a * (k * k * k), a * (k * k), a * k, b * (k * k), b * k, c * k);
    assert(b * (k * k * t) == bk2 * t && c * (k * (t * t)) == ck * (t * t)) by (nonlinear_arith)
        requires
            bk2 == b * (k * k),
            ck == c * k,
    ;
    let m = k + 1;
    assert(a * (m * m * m) == ak3 + 3 * ak2 + 3 * ak + a) by (nonlinear_arith)
        requires
            m == k + 1,
            ak3 == a * (k * k * k),
            ak2 == a * (k * k),
            ak == a * k,
    ;
    assert(b * (m * m * t) == bk2 * t + 2 * bk * t + b * t) by (nonlinear_arith)
        requires
            m == k + 1,
            bk2 == b * (k * k),
            bk == b * k,
    ;
    assert(c * (m * (t * t)) == ck * (t * t) + c * (t * t)) by (nonlinear_arith)
        requires
            m == k + 1,
            ck == c * k,
    ;
    let n = k + 2;
    assert(a * (n * n * n) == ak3 + 6 * ak2 + 12 * ak + 8 * a) by (nonlinear_arith)
        requires
            n == k + 2,
            ak3 == a * (k * k * k),
            ak2 == a * (k * k),
            ak == a * k,
    ;
    assert(b * (n * n * t) == bk2 * t + 4 * bk * t + 4 * b * t) by (nonlinear_arith)
        requires
            n == k + 2,
            bk2 == b * (k * k),
            bk == b * k,
    ;
    assert(c * (n * (t * t)) == ck * (t * t) + 2 * c * (t * t)) by (nonlinear_arith)
        requires
            n == k + 2,
            ck == c * k,
    ;
}

/// Each level is the forward difference of the one below it.
proof fn lemma_level_step(a: int, b: int, c: int, d: int, k: int)
    ensures
        level_at(1, a, b, c, d, k + 1) - level_at(1, a, b, c, d, k) == level_at(2, a, b, c, d, k),
        level_at(2, a, b, c, d, k + 1) - level_at(2, a, b, c, d, k) == 6 * a,
{
    reveal(level_at);
    lemma_cubic_expand(a, b, c, d, k);
    let t = ROOT_ONE as int;
    let (f0, f1, f2) = (cubic_at(a, b, c, d, k), cubic_at(a, b, c, d, k + 1), cubic_at(a, b, c, d, k + 2));
    assert(level_at(1, a, b, c, d, k + 1) == f2 - f1);
    assert(level_at(1, a, b, c, d, k) == f1 - f0);
    let (ak3, ak2, ak, bk2, bk, ck) = (a * (k * k * k), a * (k * k), a * k, b * (k * k), b * k, c * k);
    assert(f2 - 2 * f1 + f0 == 6 * ak + 6 * a + 2 * b * t) by (nonlinear_arith)
        requires
            f0 == ak3 + bk2 * t + ck * (t * t) + d * (t * t * t),
            f1 == ak3 + 3 * ak2 + 3 * ak + a + bk2 * t + 2 * bk * t + b * t + ck * (t * t) + c * (t
                * t) + d * (t * t * t),
            f2 == ak3 + 6 * ak2 + 12 * ak + 8 * a + bk2 * t + 4 * bk * t + 4 * b * t + ck * (t * t)
                + 2 * c * (t * t) + d * (t * t * t),
    ;
    assert(6 * a * (k + 1) == 6 * (a * k) + 6 * a) by (nonlinear_arith);
    assert(6 * a * (k + 1 + 1) - 6 * a * (k + 1) == 6 * a) by (nonlinear_arith);
}

/// `v` seen in the direction `dir`: `v` for `1`, `-v` for `-1`.
pub open spec fn oriented(dir: int, v: int) -> int {
    if dir >= 0 {
        v
    } else {
        -v
    }
}

/// On `[p, q]` the level is monotone in the direction `dir` (`1` up, `-1`
/// down): `dir` times each step is not negative.
pub open spec fn monotone_on(level: int, a: int, b: int, c: int, d: int, p: int, q: int, dir: int) -> bool {
    forall|k: int| p <= k < q ==> oriented(dir, #[trigger] step_at(level, a, b, c, d, k)) >= 0
}

/// The step of a level from `k` to `k + 1`.
pub open spec fn step_at(level: int, a: int, b: int, c: int, d: int, k: int) -> int {
    level_at(level, a, b, c, d, k + 1) - level_at(level, a, b, c, d, k)
}

proof fn lemma_monotone(level: int, a: int, b: int, c: int, d: int, p: int, q: int, dir: int, i: int, j: int)
    requires
        monotone_on(level, a, b, c, d, p, q, dir),
        p <= i <= j <= q,
    ensures
        oriented(dir as int, level_at(level, a, b, c, d, i)) <= oriented(dir as int, level_at(level, a, b, c, d, j)),
    decreases j - i,
{
    if i < j {
        lemma_monotone(level, a, b, c, d, p, q, dir, i, j - 1);
        let (u, v) = (level_at(level, a, b, c, d, j - 1), level_at(level, a, b, c, d, j));
        assert(oriented(dir, step_at(level, a, b, c, d, j - 1)) >= 0);
    }
}

/// The solver's inputs are in range.
pub open spec fn solver_ok(a: i128, b: i128, c: i128, d: i128, lo: i64, hi: i64) -> bool {
    coef_ok(a) && coef_ok(b) && coef_ok(c) && coef_ok(d) && -ROOT_LIMIT <= lo <= hi <= ROOT_LIMIT
}

/// Exact evaluation of `level_at` at a point of the window.
fn eval_level(level: i8, a: i128, b: i128, c: i128, d: i128, k: i64) -> (r: i128)
    requires
        0 <= level <= 2,
        coef_ok(a),
        coef_ok(b),
        coef_ok(c),
        coef_ok(d),
        -ROOT_LIMIT <= k <= ROOT_LIMIT,
    ensures
        r == level_at(level as int, a as int, b as int, c as int, d as int, k as int),
{
    proof {
        reveal(level_at);
    }
    if level == 0 {
        eval_cubic(a, b, c, d, k)
    } else if level == 1 {
        eval_cubic(a, b, c, d, k + 1) - eval_cubic(a, b, c, d, k)
    } else {
        proof {
            lemma_mul_bound(a as int, (k + 1) as int, 0x400_0000_0000_0000, 0x10_0001);
            lemma_mul_bound(b as int, ROOT_ONE as int, 0x400_0000_0000_0000, 0x1_0000);
            assert(6 * a * (k + 1) == 6 * (a * (k + 1))) by (nonlinear_arith);
            assert(2 * b * ROOT_ONE == 2 * (b * ROOT_ONE)) by (nonlinear_arith);
        }
        6 * (a * (k as i128 + 1)) + 2 * (b * (ROOT_ONE as i128))
    }
}

/// The first `m` in `[p, q + 1]` from which `dir` times the level is not
/// negative, on a piece where the level is monotone in the direction
/// `dir`.
#[verifier::rlimit(50)]
fn first_nonneg(level: i8, a: i128, b: i128, c: i128, d: i128, p: i64, q: i64, dir: i8) -> (m: i64)
    requires
        0 <= level <= 2,
        solver_ok(a, b, c, d, p, q),
        dir == 1 || dir == -1,
        monotone_on(level as int, a as int, b as int, c as int, d as int, p as int, q as int, dir as int),
    ensures
        p <= m <= q + 1,
        forall|k: int|
            p <= k < m ==> oriented(dir as int, #[trigger] level_at(level as int, a as int, b as int, c as int, d as int, k))
                < 0,
        forall|k: int|
            m <= k <= q ==> oriented(dir as int, #[trigger] level_at(level as int, a as int, b as int, c as int, d as int, k))
                >= 0,
{
    let ghost (ia, ib, ic, id) = (a as int, b as int, c as int, d as int);
    let ghost lv = level as int;
    let vq = eval_level(level, a, b, c, d, q);
    let vp = eval_level(level, a, b, c, d, p);
    let neg_q = if dir == 1 { vq < 0 } else { vq > 0 };
    let nonneg_p = if dir == 1 { vp >= 0 } else { vp <= 0 };
    if neg_q {
        proof {
            assert forall|k: int| p <= k < q + 1 implies oriented(dir as int, #[trigger] level_at(lv, ia, ib, ic, id, k)) < 0 by {
                lemma_monotone(lv, ia, ib, ic, id, p as int, q as int, dir as int, k, q as int);
            }
        }
        return q + 1;
    }
    if nonneg_p {
        proof {
            assert forall|k: int| p <= k <= q implies oriented(dir as int, #[trigger] level_at(lv, ia, ib, ic, id, k)) >= 0 by {
                lemma_monotone(lv, ia, ib, ic, id, p as int, q as int, dir as int, p as int, k);
            }
        }
        return p;
    }
    // `dir` times the level is negative at `lo` and not negative at `hi`.
    let mut lo = p;
    let mut hi = q;
    while hi - lo > 1
        invariant
            0 <= level <= 2,
            solver_ok(a, b, c, d, p, q),
            dir == 1 || dir == -1,
            p <= lo < hi <= q,
            oriented(dir as int, level_at(lv, ia, ib, ic, id, lo as int)) < 0,
            oriented(dir as int, level_at(lv, ia, ib, ic, id, hi as int)) >= 0,
            lv == level,
            ia == a && ib == b && ic == c && id == d,
        decreases hi - lo,
    {
        let mid = lo + (hi - lo) / 2;
        let v = eval_level(level, a, b, c, d, mid);
        let nonneg = if dir == 1 { v >= 0 } else { v <= 0 };
        if nonneg {
            hi = mid;
        } else {
            lo = mid;
        }
    }
    proof {
        assert forall|k: int| p <= k < hi implies oriented(dir as int, #[trigger] level_at(lv, ia, ib, ic, id, k)) < 0 by {
            lemma_monotone(lv, ia, ib, ic, id, p as int, q as int, dir as int, k, lo as int);
        }
        assert forall|k: int| hi <= k <= q implies oriented(dir as int, #[trigger] level_at(lv, ia, ib, ic, id, k)) >= 0 by {
            lemma_monotone(lv, ia, ib, ic, id, p as int, q as int, dir as int, hi as int, k);
        }
    }
    hi
}

/// Pieces `(p, q, dir)` that cover `[lo, hi]` in order, each sharing its
/// start with the end of the one before, on each of which the level is
/// monotone in the direction `dir`.
pub open spec fn pieces_ok(
    level: int,
    a: int,
    b: int,
    c: int,
    d: int,
    lo: int,
    hi: int,
    ps: Seq<(i64, i64, i8)>,
) -> bool {
    &&& ps.len() >= 1
    &&& ps[0].0 == lo
    &&& ps.last().1 == hi
    &&& forall|i: int| 0 <= i < ps.len() - 1 ==> (#[trigger] ps[i]).1 == ps[i + 1].0
    &&& forall|i: int|
        0 <= i < ps.len() ==> {
            let (p, q, dir) = #[trigger] ps[i];
            &&& lo <= p <= q <= hi
            &&& (dir == 1 || dir == -1)
            &&& monotone_on(level, a, b, c, d, p as int, q as int, dir as int)
        }
}

/// A point of `[lo, hi]` lies in some piece, and for `k < hi` so does the
/// step from `k` to `k + 1`.
proof fn lemma_pieces_cover(
    level: int,
    a: int,
    b: int,
    c: int,
    d: int,
    lo: int,
    hi: int,
    ps: Seq<(i64, i64, i8)>,
    k: int,
)
    requires
        pieces_ok(level, a, b, c, d, lo, hi, ps),
        lo <= k <= hi,
    ensures
        exists|i: int|
            0 <= i < ps.len() && (#[trigger] ps[i]).0 <= k <= ps[i].1 && (k < hi ==> k < ps[i].1),
    decreases ps.len(),
{
    let n = ps.len();
    if n == 1 {
        assert(ps[0].0 <= k <= ps[0].1 && (k < hi ==> k < ps[0].1));
    } else if k < ps[n - 1].0 {
        let init = ps.drop_last();
        assert forall|i: int| 0 <= i < init.len() - 1 implies (#[trigger] init[i]).1 == init[i + 1].0 by {
            assert(init[i] == ps[i] && init[i + 1] == ps[i + 1]);
        }
        assert forall|i: int| 0 <= i < init.len() implies {
            let (p, q, dir) = #[trigger] init[i];
            &&& lo <= p <= q <= ps[n - 1].0
            &&& (dir == 1 || dir == -1)
            &&& monotone_on(level, a, b, c, d, p as int, q as int, dir as int)
        } by {
            assert(init[i] == ps[i]);
            lemma_chain_le(ps, i, n - 2);
            assert(ps[n - 2].1 == ps[n - 1].0);
        }
        assert(init.last() == ps[n - 2]);
        assert(init.last().1 == ps[n - 1].0);
        lemma_pieces_cover(level, a, b, c, d, lo, ps[n - 1].0 as int, init, k);
        let i = choose|i: int|
            0 <= i < init.len() && (#[trigger] init[i]).0 <= k <= init[i].1 && (k < ps[n - 1].0
                ==> k < init[i].1);
        assert(ps[i] == init[i]);
    } else {
        assert(ps[n - 1].0 <= k <= ps[n - 1].1 && (k < hi ==> k < ps[n - 1].1));
    }
}

/// In a chain the ends of the pieces do not decrease.
pub proof fn lemma_chain_le(ps: Seq<(i64, i64, i8)>, i: int, j: int)
    requires
        forall|l: int| 0 <= l < ps.len() - 1 ==> (#[trigger] ps[l]).1 == ps[l + 1].0,
        forall|l: int| 0 <= l < ps.len() ==> (#[trigger] ps[l]).0 <= ps[l].1,
        0 <= i <= j < ps.len(),
    ensures
        ps[i].1 <= ps[j].1,
    decreases j - i,
{
    if i < j {
        lemma_chain_le(ps, i, j - 1);
        assert(ps[j - 1].1 == ps[j].0);
    }
}

/// Splits every piece of `level` where the level changes sign; the level
/// below is monotone on the new pieces.
#[verifier::rlimit(50)]
fn refine(level: i8, a: i128, b: i128, c: i128, d: i128, lo: i64, hi: i64, ps: &Vec<(i64, i64, i8)>) -> (r: Vec<
    (i64, i64, i8),
>)
    requires
        1 <= level <= 2,
        solver_ok(a, b, c, d, lo, hi),
        pieces_ok(level as int, a as int, b as int, c as int, d as int, lo as int, hi as int, ps@),
    ensures
        pieces_ok(level - 1, a as int, b as int, c as int, d as int, lo as int, hi as int, r@),
{
    let ghost (ia, ib, ic, id) = (a as int, b as int, c as int, d as int);
    let ghost lv = level as int;
    let mut out: Vec<(i64, i64, i8)> = Vec::new();
    let mut i: usize = 0;
    while i < ps.len()
        invariant
            1 <= level <= 2,
            lv == level,
            ia == a && ib == b && ic == c && id == d,
            solver_ok(a, b, c, d, lo, hi),
            pieces_ok(lv, ia, ib, ic, id, lo as int, hi as int, ps@),
            0 <= i <= ps@.len(),
            i == 0 ==> out@.len() == 0,
            i > 0 ==> out@.len() >= 1 && out@[0].0 == lo && out@.last().1 == ps@[i - 1].1,
            forall|j: int| 0 <= j < out@.len() - 1 ==> (#[trigger] out@[j]).1 == out@[j + 1].0,
            forall|j: int|
                0 <= j < out@.len() ==> {
                    let (p, q, dir) = #[trigger] out@[j];
                    &&& lo <= p <= q <= hi
                    &&& (dir == 1 || dir == -1)
                    &&& monotone_on(lv - 1, ia, ib, ic, id, p as int, q as int, dir as int)
                },
        decreases ps@.len() - i,
    {
        let (p, q, dir) = ps[i];
        assert(ps@[i as int] == (p, q, dir));
        let m = first_nonneg(level, a, b, c, d, p, q, dir);
        let ghost before = out@;
        proof {
            assert forall|k: int| p <= k < q implies #[trigger] step_at(lv - 1, ia, ib, ic, id, k)
                == level_at(lv, ia, ib, ic, id, k) by {
                reveal(level_at);
                lemma_level_step(ia, ib, ic, id, k);
            }
            if i > 0 {
                assert(ps@[i - 1].1 == ps@[i as int].0);
            }
        }
        if m > q {
            out.push((p, q, -dir));
            proof {
                assert(monotone_on(lv - 1, ia, ib, ic, id, p as int, q as int, -dir as int)) by {
                    assert forall|k: int| p <= k < q implies oriented(-dir as int, #[trigger] step_at(lv - 1, ia, ib, ic, id, k)) >= 0 by {
                        assert(oriented(dir as int, level_at(lv, ia, ib, ic, id, k)) < 0);
                    }
                }
            }
        } else {
            if m > p {
                out.push((p, m, -dir));
                proof {
                    assert(monotone_on(lv - 1, ia, ib, ic, id, p as int, m as int, -dir as int)) by {
                        assert forall|k: int| p <= k < m implies oriented(-dir as int, #[trigger] step_at(lv - 1, ia, ib, ic, id, k)) >= 0 by {
                            assert(oriented(dir as int, level_at(lv, ia, ib, ic, id, k)) < 0);
                        }
                    }
                }
            }
            let ghost mid = out@;
            out.push((m, q, dir));
            proof {
                assert(monotone_on(lv - 1, ia, ib, ic, id, m as int, q as int, dir as int)) by {
                    assert forall|k: int| m <= k < q implies oriented(dir as int, #[trigger] step_at(lv - 1, ia, ib, ic, id, k)) >= 0 by {
                        assert(oriented(dir as int, level_at(lv, ia, ib, ic, id, k)) >= 0);
                    }
                }
                assert(out@.drop_last() == mid);
            }
        }
        proof {
            assert forall|j: int| 0 <= j < out@.len() - 1 implies (#[trigger] out@[j]).1 == out@[j + 1].0 by {
                if j < before.len() - 1 {
                    assert(out@[j] == before[j] && out@[j + 1] == before[j + 1]);
                } else if j == before.len() - 1 {
                    assert(out@[j] == before[j]);
                }
            }
            assert forall|j: int| 0 <= j < out@.len() implies {
                let (p, q, dir) = #[trigger] out@[j];
                &&& lo <= p <= q <= hi
                &&& (dir == 1 || dir == -1)
                &&& monotone_on(lv - 1, ia, ib, ic, id, p as int, q as int, dir as int)
            } by {
                if j < before.len() {
                    assert(out@[j] == before[j]);
                }
            }
            if i == 0 {
                assert(out@[0].0 == p);
            } else {
                assert(out@[0] == before[0]);
            }
        }
        i = i + 1;
    }
    out
}

/// Appends `x` unless it equals the last element (the list grows in
/// order).
pub(crate) fn push_new(v: &mut Vec<i64>, x: i64)
    requires
        old(v)@.len() > 0 ==> old(v)@.last() <= x,
    ensures
        final(v)@.len() > 0,
        final(v)@.last() == x,
        old(v)@.len() > 0 && old(v)@.last() == x ==> final(v)@ == old(v)@,
        !(old(v)@.len() > 0 && old(v)@.last() == x) ==> final(v)@ == old(v)@.push(x),
        final(v)@.to_set() == old(v)@.to_set().insert(x),
{
    if v.len() == 0 || v[v.len() - 1] < x {
        v.push(x);
        proof {
            assert(final(v)@.to_set() =~= old(v)@.to_set().insert(x)) by {
                assert forall|y: i64| final(v)@.to_set().contains(y) <==> old(v)@.to_set().insert(x).contains(y) by {
                    if final(v)@.contains(y) && y != x {
                        let j = choose|j: int| 0 <= j < final(v)@.len() && final(v)@[j] == y;
                        assert(old(v)@[j] == y);
                    }
                    if old(v)@.contains(y) {
                        let j = choose|j: int| 0 <= j < old(v)@.len() && old(v)@[j] == y;
                        assert(final(v)@[j] == y);
                    }
                    assert(final(v)@[final(v)@.len() - 1] == x);
                }
            }
        }
    } else {
        proof {
            assert(old(v)@[old(v)@.len() - 1] == x);
            assert(old(v)@.to_set() =~= old(v)@.to_set().insert(x));
        }
    }
}

/// Level 0 is the polynomial itself.
proof fn lemma_level0(a: int, b: int, c: int, d: int)
    ensures
        forall|k: int| #[trigger] level_at(0, a, b, c, d, k) == cubic_at(a, b, c, d, k),
{
    reveal(level_at);
}

/// A sorted list of root marks within `[lo, hi]`.
pub open spec fn marks_sorted(a: int, b: int, c: int, d: int, lo: int, hi: int, v: Seq<i64>) -> bool {
    &&& forall|j: int|
        0 <= j < v.len() ==> lo <= #[trigger] v[j] <= hi && is_root_mark(a, b, c, d, hi, v[j] as int)
    &&& forall|j: int, l: int| 0 <= j < l < v.len() ==> v[j] < v[l]
}

/// Appends a root mark not below the last one.
fn push_mark(a: i128, b: i128, c: i128, d: i128, lo: i64, hi: i64, v: &mut Vec<i64>, x: i64)
    requires
        marks_sorted(a as int, b as int, c as int, d as int, lo as int, hi as int, old(v)@),
        old(v)@.len() > 0 ==> old(v)@.last() <= x,
        lo <= x <= hi,
        is_root_mark(a as int, b as int, c as int, d as int, hi as int, x as int),
    ensures
        marks_sorted(a as int, b as int, c as int, d as int, lo as int, hi as int, final(v)@),
        final(v)@.len() > 0,
        final(v)@.last() == x,
        final(v)@.contains(x),
        forall|y: i64| #[trigger] old(v)@.contains(y) ==> final(v)@.contains(y),
{
    let ghost prev = v@;
    push_new(v, x);
    proof {
        assert(v@[v@.len() - 1] == x);
        assert forall|y: i64| #[trigger] prev.contains(y) implies v@.contains(y) by {
            assert(prev.to_set().contains(y));
            assert(v@.to_set().contains(y));
        }
        if !(prev.len() > 0 && prev.last() == x) {
            assert(v@ == prev.push(x));
            assert forall|j: int, l: int| 0 <= j < l < v@.len() implies v@[j] < v@[l] by {
                if l == v@.len() - 1 && j < prev.len() {
                    assert(v@[j] == prev[j]);
                    assert(prev[j] <= prev.last());
                    if j < prev.len() - 1 {
                        assert(prev[j] < prev[prev.len() - 1]);
                    }
                    assert(prev.last() < x);
                } else {
                    assert(v@[j] == prev[j] && v@[l] == prev[l]);
                }
            }
            assert forall|j: int| 0 <= j < v@.len() implies lo <= #[trigger] v@[j] <= hi
                && is_root_mark(a as int, b as int, c as int, d as int, hi as int, v@[j] as int) by {
                if j < prev.len() {
                    assert(v@[j] == prev[j]);
                }
            }
        }
    }
}

/// Reports the root marks of one piece `[p, q]` on which `f` is monotone
/// in the direction `dir`.
#[verifier::rlimit(50)]
fn report_piece(
    a: i128,
    b: i128,
    c: i128,
    d: i128,
    lo: i64,
    hi: i64,
    p: i64,
    q: i64,
    dir: i8,
    roots: &mut Vec<i64>,
)
    requires
        solver_ok(a, b, c, d, lo, hi),
        lo <= p <= q <= hi,
        dir == 1 || dir == -1,
        monotone_on(0, a as int, b as int, c as int, d as int, p as int, q as int, dir as int),
        marks_sorted(a as int, b as int, c as int, d as int, lo as int, hi as int, old(roots)@),
        old(roots)@.len() > 0 ==> old(roots)@.last() <= p,
    ensures
        marks_sorted(a as int, b as int, c as int, d as int, lo as int, hi as int, final(roots)@),
        final(roots)@.len() > 0 ==> final(roots)@.last() <= q,
        forall|y: i64| #[trigger] old(roots)@.contains(y) ==> final(roots)@.contains(y),
        forall|x: int|
            p <= x <= q && #[trigger] is_root_mark(a as int, b as int, c as int, d as int, hi as int, x)
                && (x < q || cubic_at(a as int, b as int, c as int, d as int, x) == 0)
                ==> final(roots)@.contains(x as i64),
{
    let ghost (ia, ib, ic, id) = (a as int, b as int, c as int, d as int);
    proof {
        lemma_level0(ia, ib, ic, id);
    }
    let m = first_nonneg(0, a, b, c, d, p, q, dir);
    let ghost start = roots@;
    let mut changed = false;
    if p < m && m <= q {
        let fm = eval_cubic(a, b, c, d, m);
        if fm != 0 {
            proof {
                let (u, v) = (cubic_at(ia, ib, ic, id, m - 1), cubic_at(ia, ib, ic, id, m as int));
                assert(level_at(0, ia, ib, ic, id, m - 1) == u);
                assert(level_at(0, ia, ib, ic, id, m as int) == v);
                assert(sign_of(u) * sign_of(v) < 0) by {
                    if dir == 1 {
                        assert(u < 0 && v > 0);
                    } else {
                        assert(u > 0 && v < 0);
                    }
                }
                assert(is_root_mark(ia, ib, ic, id, hi as int, m - 1));
            }
            push_mark(a, b, c, d, lo, hi, roots, m - 1);
            changed = true;
        }
    }
    let ghost after_change = roots@;
    let mut k = m;
    while k <= q && eval_cubic(a, b, c, d, k) == 0
        invariant
            solver_ok(a, b, c, d, lo, hi),
            ia == a && ib == b && ic == c && id == d,
            lo <= p <= q <= hi,
            p <= m <= k <= q + 1,
            marks_sorted(ia, ib, ic, id, lo as int, hi as int, roots@),
            roots@.len() > 0 ==> roots@.last() <= k,
            roots@.len() > 0 ==> roots@.last() <= q,
            forall|y: i64| #[trigger] start.contains(y) ==> roots@.contains(y),
            forall|y: i64| #[trigger] after_change.contains(y) ==> roots@.contains(y),
            forall|j: int| m <= j < k ==> #[trigger] roots@.contains(j as i64),
        decreases q + 1 - k,
    {
        let ghost prev = roots@;
        push_mark(a, b, c, d, lo, hi, roots, k);
        proof {
            assert forall|j: int| m <= j < k + 1 implies #[trigger] roots@.contains(j as i64) by {
                if j < k {
                    assert(prev.contains(j as i64));
                } else {
                    assert(j as i64 == k);
                }
            }
        }
        k = k + 1;
    }
    proof {
        assert forall|x: int|
            p <= x <= q && #[trigger] is_root_mark(ia, ib, ic, id, hi as int, x) && (x < q
                || cubic_at(ia, ib, ic, id, x) == 0) implies roots@.contains(x as i64) by {
            let fx = cubic_at(ia, ib, ic, id, x);
            assert(level_at(0, ia, ib, ic, id, x) == fx);
            if fx == 0 {
                assert(x >= m);
                if x >= k {
                    lemma_monotone(0, ia, ib, ic, id, p as int, q as int, dir as int, m as int, k as int);
                    lemma_monotone(0, ia, ib, ic, id, p as int, q as int, dir as int, k as int, x);
                    assert(level_at(0, ia, ib, ic, id, k as int) == cubic_at(ia, ib, ic, id, k as int));
                    assert(false);
                }
            } else {
                let fx1 = cubic_at(ia, ib, ic, id, x + 1);
                assert(level_at(0, ia, ib, ic, id, x + 1) == fx1);
                assert(x < q);
                lemma_monotone(0, ia, ib, ic, id, p as int, q as int, dir as int, x, x + 1);
                if dir == 1 {
                    assert(fx < 0 && fx1 > 0);
                } else {
                    assert(fx > 0 && fx1 < 0);
                }
                assert(x < m && x + 1 >= m);
                assert(level_at(0, ia, ib, ic, id, m as int) == fx1);
                assert(after_change.contains(x as i64));
            }
        }
    }
}

/// Every root mark of `f` in `[lo, hi]`, in increasing order.
fn roots_in(a: i128, b: i128, c: i128, d: i128, lo: i64, hi: i64) -> (r: Vec<i64>)
    requires
        solver_ok(a, b, c, d, lo, hi),
    ensures
        marks_sorted(a as int, b as int, c as int, d as int, lo as int, hi as int, r@),
        forall|k: int|
            lo <= k <= hi && #[trigger] is_root_mark(a as int, b as int, c as int, d as int, hi as int, k)
                ==> r@.contains(k as i64),
{
    let ghost (ia, ib, ic, id) = (a as int, b as int, c as int, d as int);
    // The second difference `6a (k + 1) + 2bT` moves by `6a` at each step.
    let dir2: i8 = if a >= 0 { 1 } else { -1 };
    let mut top: Vec<(i64, i64, i8)> = Vec::new();
    top.push((lo, hi, dir2));
    proof {
        assert(monotone_on(2, ia, ib, ic, id, lo as int, hi as int, dir2 as int)) by {
            assert forall|k: int| lo <= k < hi implies oriented(dir2 as int, #[trigger] step_at(2, ia, ib, ic, id, k)) >= 0 by {
                lemma_level_step(ia, ib, ic, id, k);
            }
        }
        assert(top@[0] == (lo, hi, dir2));
    }
    let mid = refine(2, a, b, c, d, lo, hi, &top);
    let ps = refine(1, a, b, c, d, lo, hi, &mid);
    let mut roots: Vec<i64> = Vec::new();
    let mut i: usize = 0;
    while i < ps.len()
        invariant
            solver_ok(a, b, c, d, lo, hi),
            ia == a && ib == b && ic == c && id == d,
            pieces_ok(0, ia, ib, ic, id, lo as int, hi as int, ps@),
            0 <= i <= ps@.len(),
            marks_sorted(ia, ib, ic, id, lo as int, hi as int, roots@),
            roots@.len() > 0 && i < ps@.len() ==> roots@.last() <= ps@[i as int].0,
            forall|l: int, k: int|
                #![trigger ps@[l], is_root_mark(ia, ib, ic, id, hi as int, k)]
                0 <= l < i && ps@[l].0 <= k <= ps@[l].1 && is_root_mark(ia, ib, ic, id, hi as int, k)
                    && (k < ps@[l].1 || cubic_at(ia, ib, ic, id, k) == 0) ==> roots@.contains(k as i64),
        decreases ps@.len() - i,
    {
        let (p, q, dir) = ps[i];
        assert(ps@[i as int] == (p, q, dir));
        let ghost before = roots@;
        report_piece(a, b, c, d, lo, hi, p, q, dir, &mut roots);
        proof {
            assert forall|l: int, x: int|
                #![trigger ps@[l], is_root_mark(ia, ib, ic, id, hi as int, x)]
                0 <= l < i + 1 && ps@[l].0 <= x <= ps@[l].1 && is_root_mark(ia, ib, ic, id, hi as int, x)
                    && (x < ps@[l].1 || cubic_at(ia, ib, ic, id, x) == 0) implies roots@.contains(
                x as i64,
            ) by {
                if l < i {
                    assert(before.contains(x as i64));
                } else {
                    assert(ps@[l] == (p, q, dir));
                }
            }
            if i + 1 < ps@.len() {
                assert(ps@[i as int].1 == ps@[i + 1].0);
            }
        }
        i = i + 1;
    }
    proof {
        assert forall|x: int|
            lo <= x <= hi && #[trigger] is_root_mark(ia, ib, ic, id, hi as int, x) implies roots@.contains(
            x as i64,
        ) by {
            lemma_pieces_cover(0, ia, ib, ic, id, lo as int, hi as int, ps@, x);
            let l = choose|l: int|
                0 <= l < ps@.len() && (#[trigger] ps@[l]).0 <= x <= ps@[l].1 && (x < hi ==> x < ps@[l].1);
            if cubic_at(ia, ib, ic, id, x) != 0 {
                assert(x < hi);
            }
        }
    }
    roots
}

/// `floor(ROOT_ONE * sqrt(dv))`, that is the integer square root of
/// `ROOT_ONE^2 dv`, which does not fit in 128 bits.
fn isqrt_scaled(dv: i128) -> (r: (i128, bool))
    requires
        0 <= dv <= 0x80_0000_0000_0000_0000_0000_0000_0000,
    ensures
        is_isqrt(ROOT_ONE * ROOT_ONE * dv, r.0 as int),
        0 <= r.0 <= 0x2_0000_0000_0000_0000_0000,
        r.1 == (r.0 * r.0 == ROOT_ONE * ROOT_ONE * dv),
{
    let t: i128 = ROOT_ONE as i128;
    let s = isqrt(dv as u128) as i128;
    proof {
        lemma_isqrt_le(dv as int, s as int, 0x1_0000_0000_0000_0000);
    }
    let rem = dv - s * s;
    proof {
        assert(rem <= 2 * s) by (nonlinear_arith)
            requires
                rem == dv - s * s,
                dv < (s + 1) * (s + 1),
        ;
    }
    // The largest `u < T` with `(T s + u)^2 <= T^2 dv`, i.e. `2 T s u + u^2
    // <= T^2 rem`.
    let bound = t * t * rem;
    proof {
        assert(0 <= 2 * t * s <= 0x2_0000_0000_0000_0000_0000) by (nonlinear_arith)
            requires
                0 <= s <= 0x1_0000_0000_0000_0000,
                t == 0x1_0000,
        ;
    }
    let ts2 = 2 * t * s;
    let mut lo: i128 = 0;
    let mut hi: i128 = t;
    proof {
        assert(2 * t * s * t + t * t > bound) by (nonlinear_arith)
            requires
                bound == t * t * rem,
                rem <= 2 * s,
                t == 0x1_0000,
                s >= 0,
        ;
    }
    while hi - lo > 1
        invariant
            t == ROOT_ONE,
            0 <= s <= 0x1_0000_0000_0000_0000,
            bound == t * t * rem,
            0 <= rem <= 2 * s,
            0 <= lo < hi <= t,
            ts2 == 2 * t * s,
            0 <= ts2 <= 0x2_0000_0000_0000_0000_0000,
            2 * t * s * lo + lo * lo <= bound,
            2 * t * s * hi + hi * hi > bound,
        decreases hi - lo,
    {
        let mid = lo + (hi - lo) / 2;
        proof {
            assert(0 <= ts2 * mid <= 0x4_0000_0000_0000_0000_0000_0000 && 0 <= mid * mid
                <= 0x1_0000_0000 && ts2 * mid == 2 * t * s * mid) by (nonlinear_arith)
                requires
                    0 <= mid <= 0x1_0000,
                    0 <= ts2 <= 0x2_0000_0000_0000_0000_0000,
                    ts2 == 2 * t * s,
            ;
        }
        if ts2 * mid + mid * mid <= bound {
            lo = mid;
        } else {
            hi = mid;
        }
    }
    let r = t * s + lo;
    proof {
        assert(hi == lo + 1);
        assert(r * r <= t * t * dv && t * t * dv < (r + 1) * (r + 1)) by (nonlinear_arith)
            requires
                r == t * s + lo,
                rem == dv - s * s,
                bound == t * t * rem,
                2 * t * s * lo + lo * lo <= bound,
                2 * t * s * (lo + 1) + (lo + 1) * (lo + 1) > bound,
        ;
        assert(0 <= r <= 0x2_0000_0000_0000_0000_0000) by (nonlinear_arith)
            requires
                r == t * s + lo,
                0 <= s <= 0x1_0000_0000_0000_0000,
                0 <= lo < 0x1_0000,
                t == 0x1_0000,
        ;
        assert(0 <= ts2 * lo <= 0x4_0000_0000_0000_0000_0000_0000 && ts2 * lo == 2 * t * s * lo)
            by (nonlinear_arith)
            requires
                0 <= lo <= 0x1_0000,
                0 <= ts2 <= 0x2_0000_0000_0000_0000_0000,
                ts2 == 2 * t * s,
        ;
        assert((r * r == t * t * dv) == (2 * t * s * lo + lo * lo == bound)) by (nonlinear_arith)
            requires
                r == t * s + lo,
                rem == dv - s * s,
                bound == t * t * rem,
        ;
    }
    (r, ts2 * lo + lo * lo == bound)
}

/// `b t^2 + c t + d` has a real root `x` with `floor(ROOT_ONE * x) == k`.
///
/// For `b == 0` the one root of the linear case, `-d / c` (none for `c ==
/// 0`). Otherwise, with `e = T^2 (c^2 - 4bd)` and `s = floor(sqrt(e))`, the
/// roots `T x = (-c T +- sqrt(e)) / 2b`, written over the positive `2|b|`,
/// rounded down: the larger is `(C + s) / 2|b|` and the smaller `(C -
/// ceil(sqrt(e))) / 2|b|`, where `C` is `-c T` for `b > 0` and `c T` for `b
/// < 0`.
pub open spec fn quad_root_floor(b: int, c: int, d: int, k: int) -> bool {
    let t = ROOT_ONE as int;
    if b == 0 {
        c != 0 && k == (if c > 0 {
            (-d * t) / c
        } else {
            (d * t) / (-c)
        })
    } else {
        let e = t * t * (c * c - 4 * b * d);
        let bb = 2 * (if b > 0 {
            b
        } else {
            -b
        });
        let cc = (if b > 0 {
            -c
        } else {
            c
        }) * t;
        e >= 0 && exists|s: int|
            #[trigger] is_isqrt(e, s) && (k == (cc + s) / bb || k == (cc - (if s * s == e {
                s
            } else {
                s + 1
            })) / bb)
    }
}

/// The real roots of `b t^2 + c t + d` whose grid point `floor(ROOT_ONE *
/// t)` lies in `[lo, hi]`, as those grid points, in increasing order: none,
/// one or two (see `quad_root_floor`). A double root, and two roots within
/// one grid step, give one grid point; `0 t^2 + 0 t + d` gives none.
pub fn solve_quadratic(b: i128, c: i128, d: i128, lo: i64, hi: i64) -> (r: Vec<i64>)
    requires
        solver_ok(0, b, c, d, lo, hi),
    ensures
        r@.len() <= 2,
        b == 0 ==> r@.len() <= 1,
        forall|i: int| 0 <= i < r@.len() ==> lo <= #[trigger] r@[i] <= hi && quad_root_floor(
            b as int,
            c as int,
            d as int,
            r@[i] as int,
        ),
        forall|i: int, j: int| 0 <= i < j < r@.len() ==> r@[i] < r@[j],
        forall|k: int|
            lo <= k <= hi && #[trigger] quad_root_floor(b as int, c as int, d as int, k) ==> r@.contains(
                k as i64,
            ),
{
    let t: i128 = ROOT_ONE as i128;
    let mut out: Vec<i64> = Vec::new();
    if b == 0 {
        if c == 0 {
            return out;
        }
        proof {
            lemma_mul_bound(d as int, t as int, 0x400_0000_0000_0000, 0x1_0000);
        }
        let k = if c > 0 {
            floor_div(-(d * t), c)
        } else {
            floor_div(d * t, -c)
        };
        if lo as i128 <= k && k <= hi as i128 {
            out.push(k as i64);
        }
        proof {
            assert forall|x: int|
                lo <= x <= hi && #[trigger] quad_root_floor(b as int, c as int, d as int, x) implies out@.contains(
                x as i64,
            ) by {
                assert(out@[0] == x as i64);
            }
        }
        return out;
    }
    proof {
        lemma_mul_bound(c as int, c as int, 0x400_0000_0000_0000, 0x400_0000_0000_0000);
        lemma_mul_bound(b as int, d as int, 0x400_0000_0000_0000, 0x400_0000_0000_0000);
        assert(0x400_0000_0000_0000int * 0x400_0000_0000_0000int == 0x10_0000_0000_0000_0000_0000_0000_0000int);
    }
    let disc = c * c - 4 * (b * d);
    if disc < 0 {
        proof {
            assert forall|x: int|
                lo <= x <= hi && #[trigger] quad_root_floor(b as int, c as int, d as int, x) implies out@.contains(
                x as i64,
            ) by {
                assert(ROOT_ONE * ROOT_ONE * (c * c - 4 * b * d) < 0) by (nonlinear_arith)
                    requires
                        c * c - 4 * (b * d) < 0,
                ;
            }
        }
        return out;
    }
    let (sq, exact) = isqrt_scaled(disc);
    let ghost e = ROOT_ONE * ROOT_ONE * (c * c - 4 * b * d);
    assert(c * c - 4 * b * d == disc) by (nonlinear_arith)
        requires
            disc == c * c - 4 * (b * d),
    ;
    let b2 = b + b;
    let bb: i128 = if b > 0 { b2 } else { -b2 };
    proof {
        lemma_mul_bound(c as int, t as int, 0x400_0000_0000_0000, 0x1_0000);
    }
    let cc: i128 = if b > 0 { -(c * t) } else { c * t };
    let ceil_sq: i128 = if exact { sq } else { sq + 1 };
    let up = floor_div(cc + sq, bb);
    let down = floor_div(cc - ceil_sq, bb);
    proof {
        let sc: int = if b > 0 { -(c as int) } else { c as int };
        assert(cc == sc * t);
        vstd::arithmetic::div_mod::lemma_div_is_ordered((cc - ceil_sq) as int, (cc + sq) as int, bb as int);
        assert(quad_root_floor(b as int, c as int, d as int, up as int));
        assert(quad_root_floor(b as int, c as int, d as int, down as int));
    }
    if lo as i128 <= down && down <= hi as i128 {
        out.push(down as i64);
    }
    if lo as i128 <= up && up <= hi as i128 && up != down {
        out.push(up as i64);
    }
    proof {
        assert forall|x: int|
            lo <= x <= hi && #[trigger] quad_root_floor(b as int, c as int, d as int, x) implies out@.contains(
            x as i64,
        ) by {
            let s2 = choose|s2: int| #[trigger] is_isqrt(e, s2) && (x == (cc + s2) / (bb as int) || x == (cc
                - (if s2 * s2 == e {
                s2
            } else {
                s2 + 1
            })) / (bb as int));
            lemma_isqrt_unique(e, s2, sq as int);
            if x == down {
                assert(out@[0] == x as i64);
            } else {
                assert(out@[out@.len() - 1] == x as i64);
            }
        }
    }
    out
}

/// The roots of `a t^3 + b t^2 + c t + d` in `[lo, hi] / ROOT_ONE`, in the
/// fixed point of `ROOT_ONE`, in increasing order, each within one grid step
/// of a real root. With `a == 0` the work goes to `solve_quadratic` and the
/// result is exact (see `quad_root_floor`). With `a != 0` the result is
/// exactly the root marks (see `is_root_mark`): the grid points where `f`
/// vanishes or changes sign before the next one. A root where `f` only
/// touches zero between two grid points, or two roots within one grid
/// step, leave no mark.
pub fn solve_cubic(a: i128, b: i128, c: i128, d: i128, lo: i64, hi: i64) -> (r: Vec<i64>)
    requires
        solver_ok(a, b, c, d, lo, hi),
    ensures
        forall|i: int| 0 <= i < r@.len() ==> lo <= #[trigger] r@[i] <= hi,
        forall|i: int, j: int| 0 <= i < j < r@.len() ==> r@[i] < r@[j],
        a == 0 ==> r@.len() <= 2,
        a == 0 ==> forall|k: int|
            lo <= k <= hi ==> (#[trigger] r@.contains(k as i64) <==> quad_root_floor(
                b as int,
                c as int,
                d as int,
                k,
            )),
        a != 0 ==> marks_sorted(a as int, b as int, c as int, d as int, lo as int, hi as int, r@),
        a != 0 ==> forall|k: int|
            lo <= k <= hi && #[trigger] is_root_mark(a as int, b as int, c as int, d as int, hi as int, k)
                ==> r@.contains(k as i64),
{
    if a == 0 {
        let r = solve_quadratic(b, c, d, lo, hi);
        proof {
            assert forall|k: int| lo <= k <= hi implies (#[trigger] r@.contains(k as i64)
                <==> quad_root_floor(b as int, c as int, d as int, k)) by {
                if r@.contains(k as i64) {
                    let i = choose|i: int| 0 <= i < r@.len() && r@[i] == k as i64;
                    assert(quad_root_floor(b as int, c as int, d as int, r@[i] as int));
                }
            }
        }
        return r;
    }
    let r = roots_in(a, b, c, d, lo, hi);
    r
}

/// `ROOT_ONE^2 (B(k / ROOT_ONE) - p)` for the quadratic Bezier `B` of `q`,
/// one coordinate at a time: `(from - p) T^2 + 2 (ctrl - from) k T + (to -
/// 2 ctrl + from) k^2`.
pub open spec fn quad_offset_coord(f: int, c: int, t: int, p: int, k: int) -> int {
    let s = ROOT_ONE as int;
    (f - p) * (s * s) + 2 * (c - f) * (k * s) + (t - 2 * c + f) * (k * k)
}

/// `ROOT_ONE^4` times the squared distance from `p` to the point of `q` at
/// parameter `k / ROOT_ONE`.
pub open spec fn quad_g(q: Quad, p: Vector2, k: int) -> int {
    let ox = quad_offset_coord(q.from.x as int, q.ctrl.x as int, q.to.x as int, p.x as int, k);
    let oy = quad_offset_coord(q.from.y as int, q.ctrl.y as int, q.to.y as int, p.y as int, k);
    ox * ox + oy * oy
}

/// Sign of `cross(B'(k / ROOT_ONE), p - B(k / ROOT_ONE))`.
pub open spec fn quad_side(q: Quad, p: Vector2, k: int) -> int {
    let s = ROOT_ONE as int;
    let tx = (q.ctrl.x - q.from.x) * s + (q.to.x - 2 * q.ctrl.x + q.from.x) * k;
    let ty = (q.ctrl.y - q.from.y) * s + (q.to.y - 2 * q.ctrl.y + q.from.y) * k;
    let ox = quad_offset_coord(q.from.x as int, q.ctrl.x as int, q.to.x as int, p.x as int, k);
    let oy = quad_offset_coord(q.from.y as int, q.ctrl.y as int, q.to.y as int, p.y as int, k);
    sign_of(tx * (-oy) - ty * (-ox))
}

/// The point at parameter `k / ROOT_ONE` is a nearest point to `p` among
/// all the points of the parameter grid on `[0, 1]`.
pub open spec fn quad_global_min(q: Quad, p: Vector2, k: int) -> bool {
    &&& 0 <= k <= ROOT_ONE
    &&& forall|j: int| 0 <= j <= ROOT_ONE ==> quad_g(q, p, k) <= #[trigger] quad_g(q, p, j)
}

/// The smallest parameter of the grid `[0, n]` where `quad_g` is least.
pub open spec fn first_min(q: Quad, p: Vector2, n: int) -> int
    decreases n,
{
    if n <= 0 {
        0
    } else {
        let m = first_min(q, p, n - 1);
        if quad_g(q, p, n) < quad_g(q, p, m) {
            n
        } else {
            m
        }
    }
}

proof fn lemma_first_min(q: Quad, p: Vector2, n: int)
    requires
        n >= 0,
    ensures
        0 <= first_min(q, p, n) <= n,
        forall|j: int| 0 <= j <= n ==> quad_g(q, p, first_min(q, p, n)) <= #[trigger] quad_g(q, p, j),
        forall|j: int| 0 <= j < first_min(q, p, n) ==> quad_g(q, p, first_min(q, p, n)) < #[trigger] quad_g(q, p, j),
    decreases n,
{
    if n > 0 {
        lemma_first_min(q, p, n - 1);
    }
}

/// Per axis, with `o(k) = A + B k + C k^2`: `o(k + 1)^2 - o(k)^2 = 4C^2 k^3
/// + 6C(B + C) k^2 + (2C(2A + B + C) + 2(B + C)^2) k + (B + C)(2A + B +
/// C)`.
pub open spec fn axis_step_coefs(a: int, b: int, c: int) -> (int, int, int, int) {
    (4 * (c * c), 6 * (c * (b + c)), 2 * (c * (2 * a + b + c)) + 2 * ((b + c) * (b + c)), (b + c) * (2 * a + b + c))
}

/// `A`, `B`, `C` of one coordinate of the scaled offset of `q` from `p`.
pub open spec fn axis_abc(f: int, c: int, t: int, p: int) -> (int, int, int) {
    let s = ROOT_ONE as int;
    ((f - p) * (s * s), 2 * (c - f) * s, t - 2 * c + f)
}

/// The coefficients of the cubic `quad_g(q, p, k + 1) - quad_g(q, p, k)`.
pub open spec fn quad_step_coefs(q: Quad, p: Vector2) -> (int, int, int, int) {
    let (ax, bx, cx) = axis_abc(q.from.x as int, q.ctrl.x as int, q.to.x as int, p.x as int);
    let (ay, by, cy) = axis_abc(q.from.y as int, q.ctrl.y as int, q.to.y as int, p.y as int);
    let (x3, x2, x1, x0) = axis_step_coefs(ax, bx, cx);
    let (y3, y2, y1, y0) = axis_step_coefs(ay, by, cy);
    (x3 + y3, x2 + y2, x1 + y1, x0 + y0)
}

proof fn lemma_axis_step(a: int, b: int, c: int, k: int)
    ensures
        ({
            let (c3, c2, c1, c0) = axis_step_coefs(a, b, c);
            let u = a + b * k + c * (k * k);
            let v = a + b * (k + 1) + c * ((k + 1) * (k + 1));
            v * v - u * u == c3 * (k * k * k) + c2 * (k * k) + c1 * k + c0
        }),
{
    let u = a + b * k + c * (k * k);
    let v = a + b * (k + 1) + c * ((k + 1) * (k + 1));
    let dlt = 2 * c * k + b + c;
    let sm = 2 * c * (k * k) + (2 * b + 2 * c) * k + 2 * a + b + c;
    assert(v - u == dlt) by (nonlinear_arith)
        requires
            u == a + b * k + c * (k * k),
            v == a + b * (k + 1) + c * ((k + 1) * (k + 1)),
            dlt == 2 * c * k + b + c,
    ;
    assert(v + u == sm) by (nonlinear_arith)
        requires
            u == a + b * k + c * (k * k),
            v == a + b * (k + 1) + c * ((k + 1) * (k + 1)),
            sm == 2 * c * (k * k) + (2 * b + 2 * c) * k + 2 * a + b + c,
    ;
    assert(v * v - u * u == dlt * sm) by (nonlinear_arith)
        requires
            v - u == dlt,
            v + u == sm,
    ;
    let (x, y) = (b + c, 2 * a + b + c);
    let (ck, k2) = (c * k, k * k);
    let m1 = 2 * ck;
    let (s1, s2) = (2 * (c * k2), 2 * (x * k));
    assert(dlt == m1 + x && sm == s1 + s2 + y) by (nonlinear_arith)
        requires
            dlt == 2 * c * k + x,
            sm == 2 * c * (k * k) + 2 * x * k + y,
            m1 == 2 * ck,
            ck == c * k,
            k2 == k * k,
            s1 == 2 * (c * k2),
            s2 == 2 * (x * k),
    ;
    assert(dlt * sm == m1 * s1 + m1 * s2 + m1 * y + x * s1 + x * s2 + x * y) by (nonlinear_arith)
        requires
            dlt == m1 + x,
            sm == s1 + s2 + y,
    ;
    assert(m1 * s1 == 4 * (c * c) * (k * k * k)) by (nonlinear_arith)
        requires
            m1 == 2 * (c * k),
            s1 == 2 * (c * (k * k)),
    ;
    assert(m1 * s2 + x * s1 == 6 * (c * x) * (k * k)) by (nonlinear_arith)
        requires
            m1 == 2 * (c * k),
            s1 == 2 * (c * (k * k)),
            s2 == 2 * (x * k),
    ;
    assert(m1 * y + x * s2 == (2 * (c * y) + 2 * (x * x)) * k) by (nonlinear_arith)
        requires
            m1 == 2 * (c * k),
            s2 == 2 * (x * k),
    ;
}

/// `quad_g(q, p, k + 1) - quad_g(q, p, k)` is the cubic of
/// `quad_step_coefs`.
proof fn lemma_quad_step(q: Quad, p: Vector2, k: int)
    ensures
        ({
            let (c3, c2, c1, c0) = quad_step_coefs(q, p);
            quad_g(q, p, k + 1) - quad_g(q, p, k) == crate::grid::cubic_at(c3, c2, c1, c0, k)
        }),
{
    reveal(crate::grid::cubic_at);
    let s = ROOT_ONE as int;
    let (ax, bx, cx) = axis_abc(q.from.x as int, q.ctrl.x as int, q.to.x as int, p.x as int);
    let (ay, by, cy) = axis_abc(q.from.y as int, q.ctrl.y as int, q.to.y as int, p.y as int);
    lemma_axis_offset(q.from.x as int, q.ctrl.x as int, q.to.x as int, p.x as int, k);
    lemma_axis_offset(q.from.x as int, q.ctrl.x as int, q.to.x as int, p.x as int, k + 1);
    lemma_axis_offset(q.from.y as int, q.ctrl.y as int, q.to.y as int, p.y as int, k);
    lemma_axis_offset(q.from.y as int, q.ctrl.y as int, q.to.y as int, p.y as int, k + 1);
    lemma_axis_step(ax, bx, cx, k);
    lemma_axis_step(ay, by, cy, k);
    let (x3, x2, x1, x0) = axis_step_coefs(ax, bx, cx);
    let (y3, y2, y1, y0) = axis_step_coefs(ay, by, cy);
    assert((x3 + y3) * (k * k * k) + (x2 + y2) * (k * k) + (x1 + y1) * k + (x0 + y0) == (x3 * (k
        * k * k) + x2 * (k * k) + x1 * k + x0) + (y3 * (k * k * k) + y2 * (k * k) + y1 * k + y0))
        by (nonlinear_arith);
}

/// Exact evaluation of `axis_step_coefs(axis_abc(f, c, t, p))`.
fn axis_coefs_exec(f: i64, c: i64, t: i64, p: i64) -> (r: (i128, i128, i128, i128))
    requires
        -COORD_LIMIT <= f <= COORD_LIMIT,
        -COORD_LIMIT <= c <= COORD_LIMIT,
        -COORD_LIMIT <= t <= COORD_LIMIT,
        -COORD_LIMIT <= p <= COORD_LIMIT,
    ensures
        ({
            let (a, b, cc) = axis_abc(f as int, c as int, t as int, p as int);
            (r.0 as int, r.1 as int, r.2 as int, r.3 as int) == axis_step_coefs(a, b, cc)
        }),
        -0x80_0000_0000_0000 <= r.0 <= 0x80_0000_0000_0000,
        -0x200_0000_0000_0000_0000 <= r.1 <= 0x200_0000_0000_0000_0000,
        -0x200_0000_0000_0000_0000_0000 <= r.2 <= 0x200_0000_0000_0000_0000_0000,
        -0x80_0000_0000_0000_0000_0000_0000 <= r.3 <= 0x80_0000_0000_0000_0000_0000_0000,
{
    let s: i128 = ROOT_ONE as i128;
    assert(s * s == 0x1_0000_0000) by (nonlinear_arith)
        requires
            s == 0x1_0000,
    ;
    proof {
        lemma_mul_bound((f - p) as int, s * s, 0x200_0000, 0x1_0000_0000);
        lemma_mul_bound(2 * (c - f), s as int, 0x400_0000, 0x1_0000);
        assert(0x200_0000int * 0x1_0000_0000int == 0x200_0000_0000_0000int);
        assert(0x400_0000int * 0x1_0000int == 0x400_0000_0000int);
    }
    let a: i128 = ((f - p) as i128) * (s * s);
    let b: i128 = (2 * ((c - f) as i128)) * s;
    let cq: i128 = (t - 2 * c + f) as i128;
    proof {
        // |a| <= 2^57, |b| <= 2^42, |cq| <= 2^26
        let bc = b + cq;
        let sa = 2 * a + b + cq;
        lemma_mul_bound(cq as int, cq as int, 0x400_0000, 0x400_0000);
        lemma_mul_bound(cq as int, bc, 0x400_0000, 0x400_0400_0000);
        lemma_mul_bound(cq as int, sa, 0x400_0000, 0x400_0400_0400_0000);
        lemma_mul_bound(bc, bc, 0x400_0400_0000, 0x400_0400_0000);
        lemma_mul_bound(bc, sa, 0x400_0400_0000, 0x400_0400_0400_0000);
        assert(0x400_0000int * 0x400_0000int == 0x10_0000_0000_0000int);
        assert(0x400_0000int * 0x400_0400_0000int == 0x10_0010_0000_0000_0000int);
        assert(0x400_0000int * 0x400_0400_0400_0000int == 0x10_0010_0010_0000_0000_0000int);
        assert(0x400_0400_0000int * 0x400_0400_0000int == 0x10_0020_0010_0000_0000_0000int);
        assert(0x400_0400_0000int * 0x400_0400_0400_0000int == 0x10_0020_0020_0010_0000_0000_0000int);
    }
    let bc = b + cq;
    let sa = 2 * a + b + cq;
    let r3 = 4 * (cq * cq);
    let r2 = 6 * (cq * bc);
    let r1 = 2 * (cq * sa) + 2 * (bc * bc);
    let r0 = bc * sa;
    proof {
        assert(b == 2 * (c - f) * ROOT_ONE) by (nonlinear_arith)
            requires
                b == 2 * (c - f) * s,
                s == ROOT_ONE,
        ;
    }
    (r3, r2, r1, r0)
}

/// Exact evaluation of `quad_step_coefs`, within the grid finder's bounds.
fn quad_step_coefs_exec(q: Quad, p: Vector2) -> (r: (i128, i128, i128, i128))
    requires
        q.wf(),
        p.is_point(),
    ensures
        (r.0 as int, r.1 as int, r.2 as int, r.3 as int) == quad_step_coefs(q, p),
        crate::grid::solver_ok(r.0, r.1, r.2, r.3, 0i64, 65535i64),
{
    let x = axis_coefs_exec(q.from.x, q.ctrl.x, q.to.x, p.x);
    let y = axis_coefs_exec(q.from.y, q.ctrl.y, q.to.y, p.y);
    (x.0 + y.0, x.1 + y.1, x.2 + y.2, x.3 + y.3)
}

/// One coordinate of the scaled offset is `A + B k + C k^2`.
proof fn lemma_axis_offset(f: int, c: int, t: int, p: int, k: int)
    ensures
        ({
            let (a, b, cc) = axis_abc(f, c, t, p);
            quad_offset_coord(f, c, t, p, k) == a + b * k + cc * (k * k)
        }),
{
    let s = ROOT_ONE as int;
    assert(2 * (c - f) * (k * s) == 2 * (c - f) * s * k) by (nonlinear_arith);
}

/// Squared distance from the end of `w` to the line through its start
/// along `u`, rounded down; the squared length of `w` where `u` has none.
pub open spec fn tangent_dist2(u: Vector2, w: Vector2) -> int {
    if dot_spec(u, u) == 0 {
        dot_spec(w, w)
    } else {
        cross_spec(u, w) * cross_spec(u, w) / dot_spec(u, u)
    }
}

/// The tangent of `q` at the parameter `k / ROOT_ONE`, times `ROOT_ONE /
/// 2`.
pub open spec fn quad_tangent(q: Quad, k: int) -> (int, int) {
    let s = ROOT_ONE as int;
    (
        (q.ctrl.x - q.from.x) * s + (q.to.x - 2 * q.ctrl.x + q.from.x) * k,
        (q.ctrl.y - q.from.y) * s + (q.to.y - 2 * q.ctrl.y + q.from.y) * k,
    )
}

/// What `signed_distance_from_quad` promises, for a point of `q` at a
/// parameter `k / ROOT_ONE` in `[0, 1]` that is nearest to `p` among all the
/// points of the parameter grid:
/// - the real distance is measured to that point;
/// - the extended distance continues the curve straight along its tangent
///   beyond an end (as for a line): at `k == 0` and `k == ROOT_ONE` it is
///   the distance to the tangent line there, inside it is the real one.
///   Continuing the curve itself past its ends (its unclamped parameter)
///   is not done: beyond `[0, 1]` the scaled squared distance outgrows 128
///   bits, and the tangent line agrees with a straight quadratic's own
///   line, so a straight curve measures as the line it is;
/// - the orthogonality is that between the tangent and the point at an
///   end, and `ORTHO_ONE` inside (where the tangent is perpendicular to
///   the offset), or `0` where the offset or the tangent has no length;
/// - the sign is that of the tangent there.
pub open spec fn quad_dist_ok(q: Quad, p: Vector2, r: SignedDistance) -> bool {
    let (u0, w0) = (sub_spec(q.ctrl, q.from), sub_spec(p, q.from));
    let (u1, w1) = (sub_spec(q.to, q.ctrl), sub_spec(p, q.to));
    &&& r.wf()
    &&& exists|k: int|
        #[trigger] quad_global_min(q, p, k) && is_isqrt(
            quad_g(q, p, k) / (ROOT_ONE * ROOT_ONE * ROOT_ONE * ROOT_ONE),
            r.real_dist as int,
        ) && r.sign == quad_side(q, p, k) && (k == 0 ==> is_isqrt(
            tangent_dist2(u0, w0),
            r.extended_dist as int,
        ) && is_isqrt(ortho2_between(u0, w0), r.orthogonality as int)) && (k == ROOT_ONE
            ==> is_isqrt(tangent_dist2(u1, w1), r.extended_dist as int) && is_isqrt(
            ortho2_between(u1, w1),
            r.orthogonality as int,
        )) && (0 < k < ROOT_ONE ==> r.extended_dist == r.real_dist && r.orthogonality == (if quad_g(
            q,
            p,
            k,
        ) == 0 || quad_tangent(q, k) == (0int, 0int) {
            0
        } else {
            ORTHO_ONE as int
        }))
}

/// Distance from the end of `w` to the line through its start along `u`.
fn tangent_dist(u: Vector2, w: Vector2) -> (r: i64)
    requires
        is_diff(u),
        is_diff(w),
    ensures
        is_isqrt(tangent_dist2(u, w), r as int),
        0 <= r <= MAX_DIST,
{
    proof {
        lemma_diff_bounds(u, w);
        lemma_diff_bounds(w, u);
        lemma_lagrange(u, w);
    }
    let uu = u.magnitude2();
    let ww = w.magnitude2();
    if uu == 0 {
        return sqrt_dist(ww as u128);
    }
    let c = u.cross(w);
    proof {
        assert(0 <= c * c <= 0x40_0000_0000_0000_0000_0000_0000) by (nonlinear_arith)
            requires
                -0x8_0000_0000_0000 <= c <= 0x8_0000_0000_0000,
        ;
    }
    let cc: u128 = (c * c) as u128;
    proof {
        vstd::arithmetic::div_mod::lemma_div_is_ordered_by_denominator(cc as int, 1, uu as int);
    }
    sqrt_dist(cc / (uu as u128))
}

/// `ORTHO_ONE^2` times the squared sine of the angle between `u` and `w`,
/// rounded down (`0` where either has no length).
pub open spec fn ortho2_between(u: Vector2, w: Vector2) -> int {
    let c = cross_spec(u, w);
    if dot_spec(u, u) == 0 || dot_spec(w, w) == 0 {
        0
    } else {
        ORTHO_ONE * ORTHO_ONE * (c * c) / (dot_spec(u, u) * dot_spec(w, w))
    }
}

/// Fixed-point absolute sine of the angle between `u` and `w`.
fn ortho_between(u: Vector2, w: Vector2) -> (r: i64)
    requires
        is_diff(u),
        is_diff(w),
    ensures
        is_isqrt(ortho2_between(u, w), r as int),
        0 <= r <= ORTHO_ONE,
{
    proof {
        lemma_diff_bounds(u, w);
        lemma_diff_bounds(w, u);
        lemma_lagrange(u, w);
    }
    let uu = u.magnitude2();
    let ww = w.magnitude2();
    let c = u.cross(w);
    if uu == 0 || ww == 0 {
        return 0;
    }
    proof {
        assert(0 <= c * c <= 0x40_0000_0000_0000_0000_0000_0000) by (nonlinear_arith)
            requires
                -0x8_0000_0000_0000 <= c <= 0x8_0000_0000_0000,
        ;
        assert(0 < uu * ww <= 0x40_0000_0000_0000_0000_0000_0000) by (nonlinear_arith)
            requires
                0 < uu <= 0x8_0000_0000_0000,
                0 < ww <= 0x8_0000_0000_0000,
        ;
        assert(c * c <= uu * ww) by (nonlinear_arith)
            requires
                uu * ww == dot_spec(u, w) * dot_spec(u, w) + c * c,
        ;
        lemma_div_le_one(ORTHO_ONE * ORTHO_ONE, c * c, uu * ww);
    }
    let k: u128 = (ORTHO_ONE as u128) * (ORTHO_ONE as u128);
    let cc: u128 = (c * c) as u128;
    let den: u128 = (uu as u128) * (ww as u128);
    proof {
        assert(k * cc <= 0x400_0000_0000_0000_0000_0000_0000_0000) by (nonlinear_arith)
            requires
                k == 0x10_0000,
                cc <= 0x40_0000_0000_0000_0000_0000_0000,
        ;
    }
    let q = k * cc / den;
    let root = isqrt(q);
    proof {
        lemma_div_le_one(k as int, cc as int, den as int);
        lemma_isqrt_le(q as int, root as int, ORTHO_ONE as int);
    }
    root as i64
}

/// `ROOT_ONE^2 (B(k / ROOT_ONE) - p)`.
fn quad_offset(q: Quad, p: Vector2, k: i64) -> (r: (i128, i128))
    requires
        q.wf(),
        p.is_point(),
        0 <= k <= ROOT_ONE,
    ensures
        r.0 == quad_offset_coord(q.from.x as int, q.ctrl.x as int, q.to.x as int, p.x as int, k as int),
        r.1 == quad_offset_coord(q.from.y as int, q.ctrl.y as int, q.to.y as int, p.y as int, k as int),
        -0x1000_0000_0000_0000 <= r.0 <= 0x1000_0000_0000_0000,
        -0x1000_0000_0000_0000 <= r.1 <= 0x1000_0000_0000_0000,
{
    (
        offset_coord(q.from.x, q.ctrl.x, q.to.x, p.x, k),
        offset_coord(q.from.y, q.ctrl.y, q.to.y, p.y, k),
    )
}

fn offset_coord(f: i64, c: i64, t: i64, p: i64, k: i64) -> (r: i128)
    requires
        -COORD_LIMIT <= f <= COORD_LIMIT,
        -COORD_LIMIT <= c <= COORD_LIMIT,
        -COORD_LIMIT <= t <= COORD_LIMIT,
        -COORD_LIMIT <= p <= COORD_LIMIT,
        0 <= k <= ROOT_ONE,
    ensures
        r == quad_offset_coord(f as int, c as int, t as int, p as int, k as int),
        -0x1000_0000_0000_0000 <= r <= 0x1000_0000_0000_0000,
{
    let s: i128 = ROOT_ONE as i128;
    let k1: i128 = k as i128;
    let e0: i128 = (f - p) as i128;
    let e1: i128 = (2 * (c - f)) as i128;
    let e2: i128 = (t - 2 * c + f) as i128;
    proof {
        assert(0 <= k1 * s <= 0x1_0000_0000 && 0 <= k1 * k1 <= 0x1_0000_0000) by (nonlinear_arith)
            requires
                0 <= k1 <= 0x1_0000,
                s == 0x1_0000,
        ;
        lemma_mul_bound(e0 as int, s * s, 0x200_0000, 0x1_0000_0000);
        lemma_mul_bound(e1 as int, k1 * s, 0x400_0000, 0x1_0000_0000);
        lemma_mul_bound(e2 as int, k1 * k1, 0x400_0000, 0x1_0000_0000);
        assert(0x200_0000 * 0x1_0000_0000 == 0x200_0000_0000_0000);
        assert(0x400_0000 * 0x1_0000_0000 == 0x400_0000_0000_0000);
        assert(2 * (c - f) * (k * s) == e1 * (k1 * s)) by (nonlinear_arith)
            requires
                e1 == 2 * (c - f),
                k1 == k,
        ;
    }
    let ss = s * s;
    let ks = k1 * s;
    let kk = k1 * k1;
    e0 * ss + e1 * ks + e2 * kk
}

/// Signed distance from `point` to the quadratic Bezier `quad`.
///
/// The nearest point is sought on the parameter grid of step `1 /
/// ROOT_ONE`. The squared distance `g(k)` is a quartic in the grid index
/// `k`, so its one-step differences `g(k + 1) - g(k)` form a cubic in `k`
/// (see `quad_step_coefs`); the smallest grid minimum of `g` lies at an end
/// or next to a root mark of that cubic, which `grid::roots_in` finds, so
/// the nearest of those points is the nearest of the whole grid.
pub fn signed_distance_from_quad(quad: Quad, point: Vector2) -> (r: SignedDistance)
    requires
        quad.wf(),
        point.is_point(),
    ensures
        quad_dist_ok(quad, point, r),
{
    let p0 = quad.from;
    let p1 = quad.ctrl;
    let p2 = quad.to;
    let v = point.sub(p0);
    let v1 = p1.sub(p0);
    let v2 = Vector2 { x: p2.x - 2 * p1.x + p0.x, y: p2.y - 2 * p1.y + p0.y };
    let t4: u128 = 0x1_0000_0000_0000_0000;
    assert(t4 == ROOT_ONE * ROOT_ONE * ROOT_ONE * ROOT_ONE);
    // The one-step differences `g(k + 1) - g(k)` of the scaled squared
    // distance form a cubic in `k`; a smallest global minimum of `g` on the
    // grid lies at an end or next to one of its root marks.
    let (ca, cb, cc, cd) = quad_step_coefs_exec(quad, point);
    let roots = crate::grid::roots_in(ca, cb, cc, cd, 0, ROOT_ONE - 1);
    // Best parameter so far and its scaled squared distance.
    let g0 = sq_len(quad_offset(quad, point, 0));
    let g1 = sq_len(quad_offset(quad, point, ROOT_ONE));
    let mut best_k: i64 = 0;
    let mut best_g: u128 = g0;
    if g1 < g0 {
        best_k = ROOT_ONE;
        best_g = g1;
    }
    let mut i: usize = 0;
    while i < roots.len()
        invariant
            quad.wf(),
            point.is_point(),
            forall|j: int| 0 <= j < roots@.len() ==> 0 <= #[trigger] roots@[j] <= ROOT_ONE - 1,
            0 <= best_k <= ROOT_ONE,
            best_g == quad_g(quad, point, best_k as int),
            best_g <= quad_g(quad, point, 0),
            best_g <= quad_g(quad, point, ROOT_ONE as int),
            forall|j: int|
                0 <= j < i ==> best_g <= quad_g(quad, point, #[trigger] roots@[j] as int) && best_g
                    <= quad_g(quad, point, roots@[j] + 1),
        decreases roots.len() - i,
    {
        let k = roots[i];
        let g = sq_len(quad_offset(quad, point, k));
        if g < best_g {
            best_k = k;
            best_g = g;
        }
        let g = sq_len(quad_offset(quad, point, k + 1));
        if g < best_g {
            best_k = k + 1;
            best_g = g;
        }
        i = i + 1;
    }
    proof {
        lemma_first_min(quad, point, ROOT_ONE as int);
        let m = first_min(quad, point, ROOT_ONE as int);
        let (ia, ib, ic, id) = (ca as int, cb as int, cc as int, cd as int);
        if 0 < m < ROOT_ONE {
            lemma_quad_step(quad, point, m - 1);
            lemma_quad_step(quad, point, m);
            let u = crate::grid::cubic_at(ia, ib, ic, id, m - 1);
            let v = crate::grid::cubic_at(ia, ib, ic, id, m);
            assert(u < 0);
            assert(v >= 0);
            if v == 0 {
                assert(crate::grid::is_root_mark(ia, ib, ic, id, ROOT_ONE - 1, m));
                assert(roots@.contains(m as i64));
                let j = choose|j: int| 0 <= j < roots@.len() && roots@[j] == m as i64;
                assert(best_g <= quad_g(quad, point, roots@[j] as int));
            } else {
                assert(sign_of(u) * sign_of(v) < 0);
                assert(crate::grid::is_root_mark(ia, ib, ic, id, ROOT_ONE - 1, m - 1));
                assert(roots@.contains((m - 1) as i64));
                let j = choose|j: int| 0 <= j < roots@.len() && roots@[j] == (m - 1) as i64;
                assert(best_g <= quad_g(quad, point, roots@[j] + 1));
            }
        }
        assert(best_g <= quad_g(quad, point, m));
        assert forall|j: int| 0 <= j <= ROOT_ONE implies best_g <= #[trigger] quad_g(quad, point, j) by {}
    }
    assert(quad_global_min(quad, point, best_k as int));
    let real_dist = sqrt_dist(best_g / t4);
    let ob = quad_offset(quad, point, best_k);
    let s: i128 = ROOT_ONE as i128;
    let kb: i128 = best_k as i128;
    proof {
        lemma_mul_bound(v1.x as int, s as int, 0x200_0000, 0x1_0000);
        lemma_mul_bound(v1.y as int, s as int, 0x200_0000, 0x1_0000);
        lemma_mul_bound(v2.x as int, kb as int, 0x400_0000, 0x1_0000);
        lemma_mul_bound(v2.y as int, kb as int, 0x400_0000, 0x1_0000);
    }
    let tx: i128 = (v1.x as i128) * s + (v2.x as i128) * kb;
    let ty: i128 = (v1.y as i128) * s + (v2.y as i128) * kb;
    proof {
        lemma_mul_bound(tx as int, -ob.1, 0x800_0000_0000, 0x1000_0000_0000_0000);
        lemma_mul_bound(ty as int, -ob.0, 0x800_0000_0000, 0x1000_0000_0000_0000);
        assert(0x800_0000_0000 * 0x1000_0000_0000_0000 == 0x80_0000_0000_0000_0000_0000_0000);
    }
    let side = tx * (-ob.1) - ty * (-ob.0);
    let sign: i8 = if side > 0 {
        1
    } else if side < 0 {
        -1
    } else {
        0
    };
    let (orthogonality, extended_dist) = if best_k == 0 {
        (ortho_between(v1, v), tangent_dist(v1, v))
    } else if best_k == ROOT_ONE {
        (ortho_between(p2.sub(p1), point.sub(p2)), tangent_dist(p2.sub(p1), point.sub(p2)))
    } else if best_g == 0 || (tx == 0 && ty == 0) {
        (0, real_dist)
    } else {
        (ORTHO_ONE, real_dist)
    };
    let r = SignedDistance { real_dist, extended_dist, orthogonality, sign };
    proof {
        assert(quad_tangent(quad, best_k as int) == (tx as int, ty as int));
        assert(v1 == sub_spec(quad.ctrl, quad.from) && v == sub_spec(point, quad.from));
    }
    assert(quad_g(quad, point, best_k as int) <= quad_g(quad, point, 0));
    r
}

/// `x^2 + y^2` of an offset.
fn sq_len(o: (i128, i128)) -> (r: u128)
    requires
        -0x1000_0000_0000_0000 <= o.0 <= 0x1000_0000_0000_0000,
        -0x1000_0000_0000_0000 <= o.1 <= 0x1000_0000_0000_0000,
    ensures
        r == o.0 * o.0 + o.1 * o.1,
        r <= 0x200_0000_0000_0000_0000_0000_0000_0000,
{
    proof {
        assert(0 <= o.0 * o.0 <= 0x100_0000_0000_0000_0000_0000_0000_0000) by (nonlinear_arith)
            requires
                -0x1000_0000_0000_0000 <= o.0 <= 0x1000_0000_0000_0000,
        ;
        assert(0 <= o.1 * o.1 <= 0x100_0000_0000_0000_0000_0000_0000_0000) by (nonlinear_arith)
            requires
                -0x1000_0000_0000_0000 <= o.1 <= 0x1000_0000_0000_0000,
        ;
    }
    ((o.0 * o.0) as u128) + ((o.1 * o.1) as u128)
}


/// What `signed_distance_from_line` promises.
pub open spec fn line_dist_ok(a: Vector2, b: Vector2, p: Vector2, r: SignedDistance) -> bool {
    &&& r.wf()
    &&& is_isqrt(line_dist2(a, b, p), r.real_dist as int)
    &&& is_isqrt(line_ext_dist2(a, b, p), r.extended_dist as int)
    &&& is_isqrt(line_ortho2(a, b, p), r.orthogonality as int)
    &&& r.sign == line_sign(a, b, p)
}

/// The square root rounded down is unique.
pub proof fn lemma_isqrt_unique(n: int, r1: int, r2: int)
    requires
        is_isqrt(n, r1),
        is_isqrt(n, r2),
    ensures
        r1 == r2,
{
    if r1 < r2 {
        assert((r1 + 1) * (r1 + 1) <= r2 * r2) by (nonlinear_arith)
            requires
                0 <= r1 < r2,
        ;
    } else if r2 < r1 {
        assert((r2 + 1) * (r2 + 1) <= r1 * r1) by (nonlinear_arith)
            requires
                0 <= r2 < r1,
        ;
    }
}

/// A line's distance is determined by the line and the point.
pub proof fn lemma_line_dist_unique(a: Vector2, b: Vector2, p: Vector2, r1: SignedDistance, r2: SignedDistance)
    requires
        line_dist_ok(a, b, p, r1),
        line_dist_ok(a, b, p, r2),
    ensures
        r1 == r2,
{
    lemma_isqrt_unique(line_dist2(a, b, p), r1.real_dist as int, r2.real_dist as int);
    lemma_isqrt_unique(line_ext_dist2(a, b, p), r1.extended_dist as int, r2.extended_dist as int);
    lemma_isqrt_unique(line_ortho2(a, b, p), r1.orthogonality as int, r2.orthogonality as int);
}


/// The segments `p0`-`p1` and `p2`-`p3` cross or touch at a single point.
/// Parallel segments, coincident ones included, do not count.
pub open spec fn lines_intersect_spec(p0: Vector2, p1: Vector2, p2: Vector2, p3: Vector2) -> bool {
    let den = (p3.y - p2.y) * (p1.x - p0.x) - (p3.x - p2.x) * (p1.y - p0.y);
    let n1 = (p3.x - p2.x) * (p0.y - p2.y) - (p3.y - p2.y) * (p0.x - p2.x);
    let n2 = (p1.x - p0.x) * (p0.y - p2.y) - (p1.y - p0.y) * (p0.x - p2.x);
    if den > 0 {
        0 <= n1 <= den && 0 <= n2 <= den
    } else if den < 0 {
        den <= n1 <= 0 && den <= n2 <= 0
    } else {
        false
    }
}

/// Whether the segments `p0`-`p1` and `p2`-`p3` intersect: both
/// parameters `n1 / den` and `n2 / den` of the crossing lie in `[0, 1]`.
pub fn lines_intersect(p0: Vector2, p1: Vector2, p2: Vector2, p3: Vector2) -> (r: bool)
    requires
        p0.is_point(),
        p1.is_point(),
        p2.is_point(),
        p3.is_point(),
    ensures
        r == lines_intersect_spec(p0, p1, p2, p3),
{
    let x0_x2 = (p0.x - p2.x) as i128;
    let y0_y2 = (p0.y - p2.y) as i128;
    let x1_x0 = (p1.x - p0.x) as i128;
    let y1_y0 = (p1.y - p0.y) as i128;
    let x3_x2 = (p3.x - p2.x) as i128;
    let y3_y2 = (p3.y - p2.y) as i128;
    proof {
        let m = 0x200_0000int;
        lemma_mul_bound(x3_x2 as int, y0_y2 as int, m, m);
        lemma_mul_bound(y3_y2 as int, x0_x2 as int, m, m);
        lemma_mul_bound(x1_x0 as int, y0_y2 as int, m, m);
        lemma_mul_bound(y1_y0 as int, x0_x2 as int, m, m);
        lemma_mul_bound(y3_y2 as int, x1_x0 as int, m, m);
        lemma_mul_bound(x3_x2 as int, y1_y0 as int, m, m);
    }
    let numerator1 = x3_x2 * y0_y2 - y3_y2 * x0_x2;
    let numerator2 = x1_x0 * y0_y2 - y1_y0 * x0_x2;
    let denominator = y3_y2 * x1_x0 - x3_x2 * y1_y0;
    if denominator > 0 {
        0 <= numerator1 && numerator1 <= denominator && 0 <= numerator2 && numerator2
            <= denominator
    } else if denominator < 0 {
        denominator <= numerator1 && numerator1 <= 0 && denominator <= numerator2 && numerator2
            <= 0
    } else {
        false
    }
}


/// `n / d` rounded down (towards negative infinity).
pub fn floor_div(n: i128, d: i128) -> (r: i128)
    requires
        0 < d <= 0x10_0000_0000_0000_0000_0000_0000,
        -0x10_0000_0000_0000_0000_0000_0000 <= n <= 0x10_0000_0000_0000_0000_0000_0000,
    ensures
        r == n / d,
{
    if n >= 0 {
        ((n as u128) / (d as u128)) as i128
    } else {
        let m: u128 = (-n) as u128;
        let q: u128 = (m + (d as u128) - 1) / (d as u128);
        proof {
            let rr = (m + d - 1) % (d as int);
            vstd::arithmetic::div_mod::lemma_fundamental_div_mod((m + d - 1) as int, d as int);
            vstd::arithmetic::div_mod::lemma_mod_bound((m + d - 1) as int, d as int);
            assert((m + d - 1) as int == d * (q as int) + rr);
            assert(n == (-(q as int)) * d + (d - 1 - rr)) by (nonlinear_arith)
                requires
                    (m + d - 1) == d * q + rr,
                    m == -n,
            ;
            vstd::arithmetic::div_mod::lemma_fundamental_div_mod_converse(
                n as int,
                d as int,
                -(q as int),
                d - 1 - rr,
            );
            vstd::arithmetic::div_mod::lemma_div_is_ordered_by_denominator(
                (m + d - 1) as int,
                1,
                d as int,
            );
        }
        -(q as i128)
    }
}

/// The point at parameter `t / ROOT_ONE` of the line from `p0` to `p1`,
/// rounded down: `p0 + t (p1 - p0)`.
pub fn line_fn(p0: Vector2, p1: Vector2, t: i64) -> (r: Vector2)
    requires
        p0.is_point(),
        p1.is_point(),
        0 <= t <= ROOT_ONE,
    ensures
        r.x == p0.x + t * (p1.x - p0.x) / (ROOT_ONE as int),
        r.y == p0.y + t * (p1.y - p0.y) / (ROOT_ONE as int),
        r.is_point(),
{
    Vector2 { x: line_coord(p0.x, p1.x, t), y: line_coord(p0.y, p1.y, t) }
}

fn line_coord(a: i64, b: i64, t: i64) -> (r: i64)
    requires
        -COORD_LIMIT <= a <= COORD_LIMIT,
        -COORD_LIMIT <= b <= COORD_LIMIT,
        0 <= t <= ROOT_ONE,
    ensures
        r == a + t * (b - a) / (ROOT_ONE as int),
        -COORD_LIMIT <= r <= COORD_LIMIT,
{
    proof {
        lemma_mul_bound(t as int, (b - a) as int, 0x1_0000, 0x200_0000);
        assert(0x1_0000int * 0x200_0000int == 0x200_0000_0000int);
    }
    let n = (t as i128) * ((b - a) as i128);
    proof {
        // `a + t (b - a) / T` lies between `a` and `b`.
        if b >= a {
            assert(0 <= n <= (b - a) * ROOT_ONE) by (nonlinear_arith)
                requires
                    n == t * (b - a),
                    0 <= t <= ROOT_ONE,
                    b >= a,
            ;
            vstd::arithmetic::div_mod::lemma_div_is_ordered(n as int, (b - a) * ROOT_ONE, ROOT_ONE as int);
            vstd::arithmetic::div_mod::lemma_div_multiples_vanish((b - a) as int, ROOT_ONE as int);
            assert((b - a) * ROOT_ONE == ROOT_ONE * (b - a)) by (nonlinear_arith);
            vstd::arithmetic::div_mod::lemma_div_pos_is_pos(n as int, ROOT_ONE as int);
        } else {
            assert((b - a) * ROOT_ONE <= n <= 0) by (nonlinear_arith)
                requires
                    n == t * (b - a),
                    0 <= t <= ROOT_ONE,
                    b < a,
            ;
            vstd::arithmetic::div_mod::lemma_div_is_ordered((b - a) * ROOT_ONE, n as int, ROOT_ONE as int);
            vstd::arithmetic::div_mod::lemma_div_multiples_vanish((b - a) as int, ROOT_ONE as int);
            assert((b - a) * ROOT_ONE == ROOT_ONE * (b - a)) by (nonlinear_arith);
            vstd::arithmetic::div_mod::lemma_div_is_ordered(n as int, 0, ROOT_ONE as int);
        }
    }
    let q = floor_div(n, ROOT_ONE as i128);
    a + (q as i64)
}

/// The coefficients of `cross(l1 - l0, B(t) - l0) = b t^2 + c t + e` for
/// the quadratic Bezier `B` of `q0`, `q1`, `q2`.
pub open spec fn quad_line_coefs(q0: Vector2, q1: Vector2, q2: Vector2, l0: Vector2, l1: Vector2) -> (int, int, int) {
    let d = sub_spec(l1, l0);
    let v2 = Vector2 { x: (q2.x - 2 * q1.x + q0.x) as i64, y: (q2.y - 2 * q1.y + q0.y) as i64 };
    (cross_spec(d, v2), 2 * cross_spec(d, sub_spec(q1, q0)), cross_spec(d, sub_spec(q0, l0)))
}

/// The projection of the curve point at the grid parameter `k / ROOT_ONE`
/// onto the line direction `l1 - l0`, measured from `l0` and scaled by
/// `ROOT_ONE^2`.
pub open spec fn quad_line_proj(q0: Vector2, q1: Vector2, q2: Vector2, l0: Vector2, l1: Vector2, k: int) -> int {
    let d = sub_spec(l1, l0);
    quad_offset_coord(q0.x as int, q1.x as int, q2.x as int, l0.x as int, k) * d.x
        + quad_offset_coord(q0.y as int, q1.y as int, q2.y as int, l0.y as int, k) * d.y
}

/// The curve `q0`, `q1`, `q2` meets the line `l0`-`l1` within the grid step
/// `[k, k + 1] / ROOT_ONE`: a real root of `cross(l1 - l0, B(t) - l0)` has
/// its grid point at `k` in `[0, 1]` (see `quad_root_floor`), and the
/// projections of the curve points at both ends of the step (the last grid
/// point for `k == ROOT_ONE`) span a range that meets the segment's own,
/// `[0, |l1 - l0|^2]` (scaled by `ROOT_ONE^2`).
pub open spec fn quad_line_hit(q0: Vector2, q1: Vector2, q2: Vector2, l0: Vector2, l1: Vector2, k: int) -> bool {
    let (b, c, e) = quad_line_coefs(q0, q1, q2, l0, l1);
    let d = sub_spec(l1, l0);
    let s = ROOT_ONE as int;
    let k1 = if k < ROOT_ONE { k + 1 } else { k };
    let (u, v) = (quad_line_proj(q0, q1, q2, l0, l1, k), quad_line_proj(q0, q1, q2, l0, l1, k1));
    &&& 0 <= k <= ROOT_ONE
    &&& quad_root_floor(b, c, e, k)
    &&& (u >= 0 || v >= 0)
    &&& (u <= dot_spec(d, d) * (s * s) || v <= dot_spec(d, d) * (s * s))
}

/// Whether the line `l0`-`l1` meets the quadratic Bezier `q0`, `q1`, `q2`,
/// up to one grid step of the curve's parameter: the real roots of
/// `cross(l1 - l0, B(t) - l0)` in `[0, 1]` come from `solve_quadratic`, and
/// the curve must reach the segment's extent within the grid step of one of
/// them. A curve lying along the line (the cross product vanishes
/// everywhere) does not count, as for two coincident lines.
pub fn line_quad_intersect(q0: Vector2, q1: Vector2, q2: Vector2, l0: Vector2, l1: Vector2) -> (r:
    bool)
    requires
        q0.is_point(),
        q1.is_point(),
        q2.is_point(),
        l0.is_point(),
        l1.is_point(),
    ensures
        r == exists|k: int| #[trigger] quad_line_hit(q0, q1, q2, l0, l1, k),
{
    let d = l1.sub(l0);
    let v1 = q1.sub(q0);
    let w0 = q0.sub(l0);
    let v2 = Vector2 { x: q2.x - 2 * q1.x + q0.x, y: q2.y - 2 * q1.y + q0.y };
    proof {
        lemma_mul_bound(d.x as int, v2.y as int, 0x200_0000, 0x400_0000);
        lemma_mul_bound(d.y as int, v2.x as int, 0x200_0000, 0x400_0000);
        lemma_diff_bounds(d, v1);
        lemma_diff_bounds(d, w0);
        assert(0x200_0000int * 0x400_0000int == 0x8_0000_0000_0000int);
    }
    let b = d.cross(v2);
    let c = 2 * d.cross(v1);
    let e = d.cross(w0);
    let roots = solve_quadratic(b, c, e, 0, ROOT_ONE);
    let dd = d.magnitude2();
    let q = Quad { from: q0, ctrl: q1, to: q2 };
    let s: i128 = ROOT_ONE as i128;
    proof {
        assert(0 <= dd * (s * s) <= 0x8_0000_0000_0000 * 0x1_0000_0000) by (nonlinear_arith)
            requires
                0 <= dd <= 0x8_0000_0000_0000,
                s == 0x1_0000,
        ;
    }
    let limit = dd * (s * s);
    let mut i: usize = 0;
    while i < roots.len()
        invariant
            q0.is_point() && q1.is_point() && q2.is_point() && l0.is_point() && l1.is_point(),
            q == (Quad { from: q0, ctrl: q1, to: q2 }),
            d == sub_spec(l1, l0),
            (b as int, c as int, e as int) == quad_line_coefs(q0, q1, q2, l0, l1),
            limit == dot_spec(d, d) * (ROOT_ONE * ROOT_ONE),
            is_diff(d),
            forall|j: int| 0 <= j < roots@.len() ==> 0 <= #[trigger] roots@[j] <= ROOT_ONE && quad_root_floor(
                b as int,
                c as int,
                e as int,
                roots@[j] as int,
            ),
            forall|k: int|
                0 <= k <= ROOT_ONE && #[trigger] quad_root_floor(b as int, c as int, e as int, k)
                    ==> roots@.contains(k as i64),
            forall|j: int| 0 <= j < i ==> !#[trigger] quad_line_hit(q0, q1, q2, l0, l1, roots@[j] as int),
        decreases roots.len() - i,
    {
        let k = roots[i];
        let k1 = if k < ROOT_ONE { k + 1 } else { k };
        let u = proj_at(q, l0, d, k);
        let v = proj_at(q, l0, d, k1);
        if (u >= 0 || v >= 0) && (u <= limit || v <= limit) {
            assert(quad_line_hit(q0, q1, q2, l0, l1, k as int));
            return true;
        }
        i = i + 1;
    }
    proof {
        assert forall|k: int| !#[trigger] quad_line_hit(q0, q1, q2, l0, l1, k) by {
            if quad_line_hit(q0, q1, q2, l0, l1, k) {
                assert(roots@.contains(k as i64));
                let j = choose|j: int| 0 <= j < roots@.len() && roots@[j] == k as i64;
                assert(!quad_line_hit(q0, q1, q2, l0, l1, roots@[j] as int));
            }
        }
    }
    false
}

/// Exact evaluation of `quad_line_proj`.
fn proj_at(q: Quad, l0: Vector2, d: Vector2, k: i64) -> (r: i128)
    requires
        q.wf(),
        l0.is_point(),
        is_diff(d),
        0 <= k <= ROOT_ONE,
    ensures
        r == quad_offset_coord(q.from.x as int, q.ctrl.x as int, q.to.x as int, l0.x as int, k as int)
            * d.x + quad_offset_coord(q.from.y as int, q.ctrl.y as int, q.to.y as int, l0.y as int, k as int)
            * d.y,
{
    let o = quad_offset(q, l0, k);
    proof {
        lemma_mul_bound(o.0 as int, d.x as int, 0x1000_0000_0000_0000, 0x200_0000);
        lemma_mul_bound(o.1 as int, d.y as int, 0x1000_0000_0000_0000, 0x200_0000);
        assert(0x1000_0000_0000_0000int * 0x200_0000int == 0x20_0000_0000_0000_0000_0000int);
    }
    o.0 * (d.x as i128) + o.1 * (d.y as i128)
}

/// The point at parameter `t / ROOT_ONE` of the quadratic Bezier `p0`,
/// `p1`, `p2`, rounded down: `p0 + 2t (p1 - p0) + t^2 (p2 - 2 p1 + p0)`.
pub fn quadratic_fn(p0: Vector2, p1: Vector2, p2: Vector2, t: i64) -> (r: Vector2)
    requires
        p0.is_point(),
        p1.is_point(),
        p2.is_point(),
        0 <= t <= ROOT_ONE,
    ensures
        r.x == p0.x + quad_offset_coord(p0.x as int, p1.x as int, p2.x as int, p0.x as int, t as int)
            / (ROOT_ONE * ROOT_ONE),
        r.y == p0.y + quad_offset_coord(p0.y as int, p1.y as int, p2.y as int, p0.y as int, t as int)
            / (ROOT_ONE * ROOT_ONE),
{
    let q = Quad { from: p0, ctrl: p1, to: p2 };
    let o = quad_offset(q, p0, t);
    let tt: i128 = (ROOT_ONE as i128) * (ROOT_ONE as i128);
    let dx = floor_div(o.0, tt);
    let dy = floor_div(o.1, tt);
    proof {
        vstd::arithmetic::div_mod::lemma_div_is_ordered(o.0 as int, 0x1000_0000_0000_0000, tt as int);
        vstd::arithmetic::div_mod::lemma_div_is_ordered(-0x1000_0000_0000_0000, o.0 as int, tt as int);
        vstd::arithmetic::div_mod::lemma_div_is_ordered(o.1 as int, 0x1000_0000_0000_0000, tt as int);
        vstd::arithmetic::div_mod::lemma_div_is_ordered(-0x1000_0000_0000_0000, o.1 as int, tt as int);
        assert(0x1000_0000_0000_0000int / 0x1_0000_0000int == 0x1000_0000);
        assert(-0x1000_0000_0000_0000int / 0x1_0000_0000int == -0x1000_0000);
    }
    Vector2 { x: p0.x + dx as i64, y: p0.y + dy as i64 }
}

} // verus!
