//! Vectors, points, colors, and rays over fixed-point scalars.
//!
//! Every executable operation is pinned to a spec mirror (`sv_*` for
//! vectors, `s_*` for scalars), so the geometry and material contracts
//! can state results exactly.
use crate::fixed::{
    fx_add, fx_div, fx_mul, fx_neg, fx_sqrt, fx_sub, s_add, s_div, s_mul, s_neg, s_sqrt, s_sub,
    FX_ONE,
};
use crate::rng::rand_u16;
use vstd::prelude::*;

verus! {

/// Twice the scalar one.
pub const FX_TWO: i64 = 0x20000;

#[derive(Clone, Copy, Debug, PartialEq, Eq, Structural)]
pub struct Vec3 {
    pub x: i64,
    pub y: i64,
    pub z: i64,
}

/// Componentwise saturating sum.
pub open spec fn sv_add(a: Vec3, b: Vec3) -> Vec3 {
    Vec3 {
        x: s_add(a.x as int, b.x as int) as i64,
        y: s_add(a.y as int, b.y as int) as i64,
        z: s_add(a.z as int, b.z as int) as i64,
    }
}

/// Componentwise saturating difference.
pub open spec fn sv_sub(a: Vec3, b: Vec3) -> Vec3 {
    Vec3 {
        x: s_sub(a.x as int, b.x as int) as i64,
        y: s_sub(a.y as int, b.y as int) as i64,
        z: s_sub(a.z as int, b.z as int) as i64,
    }
}

/// Componentwise saturating product.
pub open spec fn sv_mul(a: Vec3, b: Vec3) -> Vec3 {
    Vec3 {
        x: s_mul(a.x as int, b.x as int) as i64,
        y: s_mul(a.y as int, b.y as int) as i64,
        z: s_mul(a.z as int, b.z as int) as i64,
    }
}

/// The vector scaled by `k`.
pub open spec fn sv_scale(a: Vec3, k: int) -> Vec3 {
    Vec3 {
        x: s_mul(a.x as int, k) as i64,
        y: s_mul(a.y as int, k) as i64,
        z: s_mul(a.z as int, k) as i64,
    }
}

/// The vector divided by the scalar `k`.
pub open spec fn sv_div_s(a: Vec3, k: int) -> Vec3 {
    Vec3 {
        x: s_div(a.x as int, k) as i64,
        y: s_div(a.y as int, k) as i64,
        z: s_div(a.z as int, k) as i64,
    }
}

/// Componentwise saturating negation.
pub open spec fn sv_neg(a: Vec3) -> Vec3 {
    Vec3 { x: s_neg(a.x as int) as i64, y: s_neg(a.y as int) as i64, z: s_neg(a.z as int) as i64 }
}

/// The saturating dot product, summed left to right.
pub open spec fn s_dot(a: Vec3, b: Vec3) -> int {
    s_add(
        s_add(s_mul(a.x as int, b.x as int), s_mul(a.y as int, b.y as int)),
        s_mul(a.z as int, b.z as int),
    )
}

/// The squared length of a vector.
pub open spec fn s_sq_len(a: Vec3) -> int {
    s_dot(a, a)
}

/// The length of a vector: the rounded-down square root of its squared
/// length.
pub open spec fn s_len(a: Vec3) -> int {
    s_sqrt(s_sq_len(a))
}

/// The vector divided by its own length.
pub open spec fn sv_unit(a: Vec3) -> Vec3 {
    sv_div_s(a, s_len(a))
}

/// A vector's dot product with itself is never negative.
pub proof fn lemma_s_dot_self_nonneg(v: Vec3)
    ensures
        s_dot(v, v) >= 0,
{
    lemma_s_mul_self_nonneg(v.x as int);
    lemma_s_mul_self_nonneg(v.y as int);
    lemma_s_mul_self_nonneg(v.z as int);
}

/// A scalar's saturating square is never negative.
proof fn lemma_s_mul_self_nonneg(x: int)
    ensures
        s_mul(x, x) >= 0,
{
    assert(x * x >= 0 && (x * x) / (0x10000int) >= 0) by (nonlinear_arith);
}

/// The cross product, each component a saturated difference of products.
pub open spec fn sv_cross(a: Vec3, b: Vec3) -> Vec3 {
    Vec3 {
        x: s_sub(s_mul(a.y as int, b.z as int), s_mul(a.z as int, b.y as int)) as i64,
        y: s_neg(s_sub(s_mul(a.x as int, b.z as int), s_mul(a.z as int, b.x as int))) as i64,
        z: s_sub(s_mul(a.x as int, b.y as int), s_mul(a.y as int, b.x as int)) as i64,
    }
}

/// The mirror reflection of `v` about the normal `n`:
/// `v - 2*dot(v,n)*n`.
pub open spec fn sv_reflect(v: Vec3, n: Vec3) -> Vec3 {
    sv_sub(v, sv_scale(n, s_mul(FX_TWO as int, s_dot(v, n))))
}

/// Snell refraction of `v` through a surface with outward normal `n`;
/// nothing when the discriminant is not positive (total internal
/// reflection).
pub open spec fn sv_refract(v: Vec3, n: Vec3, ni_over_nt: int) -> Option<Vec3> {
    let uv = sv_unit(v);
    let dt = s_dot(uv, n);
    let disc = s_sub(
        FX_ONE as int,
        s_mul(s_mul(ni_over_nt, ni_over_nt), s_sub(FX_ONE as int, s_mul(dt, dt))),
    );
    if disc > 0 {
        Some(
            sv_sub(
                sv_scale(sv_sub(uv, sv_scale(n, dt)), ni_over_nt),
                sv_scale(n, s_sqrt(disc)),
            ),
        )
    } else {
        None
    }
}

impl Vec3 {
    pub fn x(&self) -> (r: i64)
        ensures
            r == self.x,
    {
        self.x
    }

    pub fn y(&self) -> (r: i64)
        ensures
            r == self.y,
    {
        self.y
    }

    pub fn z(&self) -> (r: i64)
        ensures
            r == self.z,
    {
        self.z
    }

    pub fn new(arr: [i64; 3]) -> (r: Vec3)
        ensures
            r.x == arr[0],
            r.y == arr[1],
            r.z == arr[2],
    {
        Vec3 { x: arr[0], y: arr[1], z: arr[2] }
    }

    /// Combine two vectors componentwise with the given operation.
    pub fn apply_per_element<F: Fn(i64, i64) -> i64>(&self, other: Vec3, op: F) -> (r: Vec3)
        requires
            call_requires(op, (self.x, other.x)),
            call_requires(op, (self.y, other.y)),
            call_requires(op, (self.z, other.z)),
        ensures
            call_ensures(op, (self.x, other.x), r.x),
            call_ensures(op, (self.y, other.y), r.y),
            call_ensures(op, (self.z, other.z), r.z),
    {
        Vec3 { x: op(self.x, other.x), y: op(self.y, other.y), z: op(self.z, other.z) }
    }

    /// Transform every component with the given operation.
    pub fn map<F: Fn(i64) -> i64>(&self, op: F) -> (r: Vec3)
        requires
            call_requires(op, (self.x,)),
            call_requires(op, (self.y,)),
            call_requires(op, (self.z,)),
        ensures
            call_ensures(op, (self.x,), r.x),
            call_ensures(op, (self.y,), r.y),
            call_ensures(op, (self.z,), r.z),
    {
        Vec3 { x: op(self.x), y: op(self.y), z: op(self.z) }
    }

    pub fn add(&self, other: Vec3) -> (r: Vec3)
        ensures
            r == sv_add(*self, other),
    {
        Vec3 {
            x: fx_add(self.x, other.x),
            y: fx_add(self.y, other.y),
            z: fx_add(self.z, other.z),
        }
    }

    pub fn sub(&self, other: Vec3) -> (r: Vec3)
        ensures
            r == sv_sub(*self, other),
    {
        Vec3 {
            x: fx_sub(self.x, other.x),
            y: fx_sub(self.y, other.y),
            z: fx_sub(self.z, other.z),
        }
    }

    pub fn mul(&self, other: Vec3) -> (r: Vec3)
        ensures
            r == sv_mul(*self, other),
    {
        Vec3 {
            x: fx_mul(self.x, other.x),
            y: fx_mul(self.y, other.y),
            z: fx_mul(self.z, other.z),
        }
    }

    pub fn scale(&self, k: i64) -> (r: Vec3)
        ensures
            r == sv_scale(*self, k as int),
    {
        Vec3 { x: fx_mul(self.x, k), y: fx_mul(self.y, k), z: fx_mul(self.z, k) }
    }

    pub fn div_s(&self, k: i64) -> (r: Vec3)
        ensures
            r == sv_div_s(*self, k as int),
    {
        Vec3 { x: fx_div(self.x, k), y: fx_div(self.y, k), z: fx_div(self.z, k) }
    }

    pub fn neg(&self) -> (r: Vec3)
        ensures
            r == sv_neg(*self),
    {
        Vec3 { x: fx_neg(self.x), y: fx_neg(self.y), z: fx_neg(self.z) }
    }

    pub fn dot(&self, other: Vec3) -> (r: i64)
        ensures
            r as int == s_dot(*self, other),
    {
        fx_add(
            fx_add(fx_mul(self.x, other.x), fx_mul(self.y, other.y)),
            fx_mul(self.z, other.z),
        )
    }

    pub fn cross(&self, other: Vec3) -> (r: Vec3)
        ensures
            r == sv_cross(*self, other),
    {
        Vec3 {
            x: fx_sub(fx_mul(self.y, other.z), fx_mul(self.z, other.y)),
            y: fx_neg(fx_sub(fx_mul(self.x, other.z), fx_mul(self.z, other.x))),
            z: fx_sub(fx_mul(self.x, other.y), fx_mul(self.y, other.x)),
        }
    }

    pub fn squared_length(&self) -> (r: i64)
        ensures
            r as int == s_sq_len(*self),
    {
        self.dot(*self)
    }

    pub fn length(&self) -> (r: i64)
        ensures
            r as int == s_len(*self),
    {
        fx_sqrt(self.squared_length())
    }

    pub fn unit_vector(&self) -> (r: Vec3)
        ensures
            r == sv_unit(*self),
    {
        let l = self.length();
        self.div_s(l)
    }

    /// A point drawn inside the unit sphere: coordinates are drawn
    /// uniformly from `[-1, 1)` until the squared length is below one.
    /// After too many rejected draws the center is returned, which also
    /// lies inside the sphere.
    pub fn random_in_unit_sphere(rng: &mut rand::rngs::StdRng) -> (r: Vec3)
        ensures
            s_sq_len(r) < FX_ONE as int,
    {
        let mut tries: u32 = 0;
        while tries < 64
            invariant
                tries <= 64,
            decreases 64 - tries,
        {
            let a = unit_coordinate(rng);
            let b = unit_coordinate(rng);
            let c = unit_coordinate(rng);
            let p = Vec3 { x: a, y: b, z: c };
            if p.squared_length() < FX_ONE {
                return p;
            }
            tries = tries + 1;
        }
        Vec3 { x: 0, y: 0, z: 0 }
    }

    /// A point drawn inside the unit disk in the x-y plane, by the same
    /// rejection scheme as `random_in_unit_sphere`.
    pub fn random_in_unit_disk(rng: &mut rand::rngs::StdRng) -> (r: Vec3)
        ensures
            s_sq_len(r) < FX_ONE as int,
            r.z == 0,
    {
        let mut tries: u32 = 0;
        while tries < 64
            invariant
                tries <= 64,
            decreases 64 - tries,
        {
            let a = unit_coordinate(rng);
            let b = unit_coordinate(rng);
            let p = Vec3 { x: a, y: b, z: 0 };
            if p.squared_length() < FX_ONE {
                return p;
            }
            tries = tries + 1;
        }
        Vec3 { x: 0, y: 0, z: 0 }
    }
}

/// One coordinate drawn uniformly from `[-1, 1)`: a 16-bit draw mapped
/// over `2*u - 1`.
fn unit_coordinate(rng: &mut rand::rngs::StdRng) -> (r: i64)
    ensures
        -FX_ONE <= r && r < FX_ONE,
{
    let u: u16 = rand_u16(rng);
    2 * (u as i64) - FX_ONE
}

/// Build a vector from three scalars.
pub fn vec3(x: i64, y: i64, z: i64) -> (r: Vec3)
    ensures
        r == (Vec3 { x, y, z }),
{
    Vec3 { x, y, z }
}

/// The mirror reflection of `v` about `n`.
pub fn reflect(v: Vec3, n: Vec3) -> (r: Vec3)
    ensures
        r == sv_reflect(v, n),
{
    let d = dot(v, n);
    v.sub(n.scale(fx_mul(FX_TWO, d)))
}

/// The saturating dot product as a free function.
pub fn dot(v: Vec3, other: Vec3) -> (r: i64)
    ensures
        r as int == s_dot(v, other),
{
    v.dot(other)
}

/// Snell refraction; nothing on total internal reflection.
pub fn refract(v: Vec3, n: Vec3, ni_over_nt: i64) -> (r: Option<Vec3>)
    ensures
        r == sv_refract(v, n, ni_over_nt as int),
{
    let uv = v.unit_vector();
    let dt = dot(uv, n);
    let discriminant = fx_sub(
        FX_ONE,
        fx_mul(fx_mul(ni_over_nt, ni_over_nt), fx_sub(FX_ONE, fx_mul(dt, dt))),
    );
    if discriminant > 0 {
        Some(uv.sub(n.scale(dt)).scale(ni_over_nt).sub(n.scale(fx_sqrt(discriminant))))
    } else {
        None
    }
}

#[derive(Clone, Copy, Debug, PartialEq, Eq, Structural)]
pub struct Ray {
    pub a: Vec3,
    pub b: Vec3,
    pub time: i64,
}

/// The point `origin + t * direction` reached along a ray.
pub open spec fn sv_point_at(r: Ray, t: int) -> Vec3 {
    sv_add(r.a, sv_scale(r.b, t))
}

impl Ray {
    pub fn new(a: Vec3, b: Vec3, ti: i64) -> (r: Ray)
        ensures
            r == (Ray { a, b, time: ti }),
    {
        Ray { a, b, time: ti }
    }

    pub fn origin(&self) -> (r: Vec3)
        ensures
            r == self.a,
    {
        self.a
    }

    pub fn direction(&self) -> (r: Vec3)
        ensures
            r == self.b,
    {
        self.b
    }

    pub fn point_at_parameter(&self, t: i64) -> (r: Vec3)
        ensures
            r == sv_point_at(*self, t as int),
    {
        self.a.add(self.b.scale(t))
    }

    pub fn time(&self) -> (r: i64)
        ensures
            r == self.time,
    {
        self.time
    }
}

} // verus!
