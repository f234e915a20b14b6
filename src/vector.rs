use vstd::prelude::*;

verus! {

/// Largest magnitude of a coordinate that the geometry accepts, in
/// sub-pixel units.
pub const COORD_LIMIT: i64 = 16777216;

/// Largest magnitude of a vector component for which `dot` and `cross`
/// are defined (differences of two coordinates stay far below it).
pub const VEC_LIMIT: i64 = 2147483648;

/// A 2D point or vector in fixed-point sub-pixel units.
#[derive(Debug, Clone, Copy, PartialEq, Eq, Structural)]
pub struct Vector2 {
    pub x: i64,
    pub y: i64,
}

pub open spec fn dot_spec(a: Vector2, b: Vector2) -> int {
    a.x * b.x + a.y * b.y
}

pub open spec fn cross_spec(a: Vector2, b: Vector2) -> int {
    a.x * b.y - a.y * b.x
}

/// Squared Euclidean distance between two points.
pub open spec fn dist2_spec(a: Vector2, b: Vector2) -> int {
    (a.x - b.x) * (a.x - b.x) + (a.y - b.y) * (a.y - b.y)
}

impl Vector2 {
    /// A point whose coordinates lie within `COORD_LIMIT`.
    pub open spec fn is_point(self) -> bool {
        -COORD_LIMIT <= self.x <= COORD_LIMIT && -COORD_LIMIT <= self.y <= COORD_LIMIT
    }

    /// A vector whose components lie within `VEC_LIMIT`.
    pub open spec fn is_small(self) -> bool {
        -VEC_LIMIT <= self.x <= VEC_LIMIT && -VEC_LIMIT <= self.y <= VEC_LIMIT
    }

    pub fn new(x: i64, y: i64) -> (r: Vector2)
        ensures
            r.x == x,
            r.y == y,
    {
        Vector2 { x, y }
    }

    pub fn from(p: (i64, i64)) -> (r: Vector2)
        ensures
            r.x == p.0,
            r.y == p.1,
    {
        Vector2 { x: p.0, y: p.1 }
    }

    pub fn is_zero(&self) -> (r: bool)
        ensures
            r == (self.x == 0 && self.y == 0),
    {
        self.x == 0 && self.y == 0
    }

    pub fn add(self, o: Vector2) -> (r: Vector2)
        requires
            self.is_small(),
            o.is_small(),
        ensures
            r.x == self.x + o.x,
            r.y == self.y + o.y,
    {
        Vector2 { x: self.x + o.x, y: self.y + o.y }
    }

    pub fn sub(self, o: Vector2) -> (r: Vector2)
        requires
            self.is_small(),
            o.is_small(),
        ensures
            r.x == self.x - o.x,
            r.y == self.y - o.y,
    {
        Vector2 { x: self.x - o.x, y: self.y - o.y }
    }

    pub fn neg(self) -> (r: Vector2)
        requires
            self.is_small(),
        ensures
            r.x == -self.x,
            r.y == -self.y,
    {
        Vector2 { x: -self.x, y: -self.y }
    }

    pub fn dot(self, o: Vector2) -> (r: i128)
        requires
            self.is_small(),
            o.is_small(),
        ensures
            r == dot_spec(self, o),
    {
        proof {
            lemma_mul_small(self.x, o.x);
            lemma_mul_small(self.y, o.y);
        }
        (self.x as i128) * (o.x as i128) + (self.y as i128) * (o.y as i128)
    }

    pub fn cross(self, o: Vector2) -> (r: i128)
        requires
            self.is_small(),
            o.is_small(),
        ensures
            r == cross_spec(self, o),
    {
        proof {
            lemma_mul_small(self.x, o.y);
            lemma_mul_small(self.y, o.x);
        }
        (self.x as i128) * (o.y as i128) - (self.y as i128) * (o.x as i128)
    }

    pub fn magnitude2(self) -> (r: i128)
        requires
            self.is_small(),
        ensures
            r == dot_spec(self, self),
            r >= 0,
    {
        proof {
            assert(self.x * self.x >= 0) by (nonlinear_arith);
            assert(self.y * self.y >= 0) by (nonlinear_arith);
        }
        self.dot(self)
    }
}

impl Vector2 {
    /// Length, rounded down.
    pub fn magnitude(self) -> (r: i64)
        requires
            self.is_small(),
        ensures
            crate::math::is_isqrt(dot_spec(self, self), r as int),
    {
        let m = self.magnitude2();
        proof {
            lemma_mul_small(self.x, self.x);
            lemma_mul_small(self.y, self.y);
        }
        crate::math::sqrt_dist(m as u128)
    }
}

pub proof fn lemma_mul_small(a: i64, b: i64)
    requires
        -VEC_LIMIT <= a <= VEC_LIMIT,
        -VEC_LIMIT <= b <= VEC_LIMIT,
    ensures
        -0x4000000000000000 <= a * b <= 0x4000000000000000,
{
    assert(-0x4000000000000000 <= a * b <= 0x4000000000000000) by (nonlinear_arith)
        requires
            -0x80000000 <= a <= 0x80000000,
            -0x80000000 <= b <= 0x80000000,
    ;
}

} // verus!
