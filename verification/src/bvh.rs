//! Axis-aligned bounding boxes and the slab test.
//!
//! A box is the pair of its componentwise minimum and maximum corners.
//! `AABB::hit` is the fast reject used to prune tree traversal: per
//! axis it intersects the ray's parameter interval with the slab the
//! box spans, and reports whether anything of `(t_min, t_max)` is left.
//! Division by a zero direction component saturates to an extreme
//! scalar, which plays the role IEEE infinities play in the usual
//! floating-point slab test.
use crate::fixed::{fx_div, fx_sub, s_div, s_sub};
use crate::vec3::{vec3, Ray, Vec3};
use vstd::prelude::*;

verus! {

/// The smaller of two scalars.
pub open spec fn s_min(a: int, b: int) -> int {
    if a < b {
        a
    } else {
        b
    }
}

/// The larger of two scalars.
pub open spec fn s_max(a: int, b: int) -> int {
    if a > b {
        a
    } else {
        b
    }
}

pub fn ffmin(a: i64, b: i64) -> (r: i64)
    ensures
        r as int == s_min(a as int, b as int),
{
    if a < b {
        a
    } else {
        b
    }
}

pub fn ffmax(a: i64, b: i64) -> (r: i64)
    ensures
        r as int == s_max(a as int, b as int),
{
    if a > b {
        a
    } else {
        b
    }
}

#[derive(Clone, Copy, Debug, PartialEq, Eq, Structural)]
pub struct AABB {
    pub min: Vec3,
    pub max: Vec3,
}

/// The box whose corners are the componentwise minima and maxima of the
/// two boxes' corners.
pub open spec fn s_surrounding(box0: AABB, box1: AABB) -> AABB {
    AABB {
        min: Vec3 {
            x: s_min(box0.min.x as int, box1.min.x as int) as i64,
            y: s_min(box0.min.y as int, box1.min.y as int) as i64,
            z: s_min(box0.min.z as int, box1.min.z as int) as i64,
        },
        max: Vec3 {
            x: s_max(box0.max.x as int, box1.max.x as int) as i64,
            y: s_max(box0.max.y as int, box1.max.y as int) as i64,
            z: s_max(box0.max.z as int, box1.max.z as int) as i64,
        },
    }
}

/// `outer` contains `inner`: every coordinate interval of `inner` lies
/// inside the matching interval of `outer`.
pub open spec fn aabb_encloses(outer: AABB, inner: AABB) -> bool {
    &&& outer.min.x <= inner.min.x
    &&& outer.min.y <= inner.min.y
    &&& outer.min.z <= inner.min.z
    &&& outer.max.x >= inner.max.x
    &&& outer.max.y >= inner.max.y
    &&& outer.max.z >= inner.max.z
}

/// The union of two boxes contains both: the law of `surrounding_box`.
pub fn surrounding_box(box0: &AABB, box1: &AABB) -> (r: AABB)
    ensures
        r == s_surrounding(*box0, *box1),
        aabb_encloses(r, *box0),
        aabb_encloses(r, *box1),
{
    let small = vec3(
        ffmin(box0.min.x, box1.min.x),
        ffmin(box0.min.y, box1.min.y),
        ffmin(box0.min.z, box1.min.z),
    );
    let big = vec3(
        ffmax(box0.max.x, box1.max.x),
        ffmax(box0.max.y, box1.max.y),
        ffmax(box0.max.z, box1.max.z),
    );
    AABB { min: small, max: big }
}

/// The union of two boxes contains each of them.
pub proof fn lemma_surrounding_encloses(box0: AABB, box1: AABB)
    ensures
        aabb_encloses(s_surrounding(box0, box1), box0),
        aabb_encloses(s_surrounding(box0, box1), box1),
{
}

/// The union of boxes does not mind their order.
pub proof fn lemma_surrounding_comm(box0: AABB, box1: AABB)
    ensures
        s_surrounding(box0, box1) == s_surrounding(box1, box0),
{
}

/// The parameter at which the ray reaches the plane `coordinate == c`
/// on one axis: `(c - origin) / direction`, in saturating fixed point.
pub open spec fn slab_t(c: int, origin: int, dir: int) -> int {
    s_div(s_sub(c, origin), dir)
}

/// The lower end of the parameter interval a slab admits on one axis.
pub open spec fn slab_lo(mn: int, mx: int, origin: int, dir: int) -> int {
    s_min(slab_t(mn, origin, dir), slab_t(mx, origin, dir))
}

/// The upper end of the parameter interval a slab admits on one axis.
pub open spec fn slab_hi(mn: int, mx: int, origin: int, dir: int) -> int {
    s_max(slab_t(mn, origin, dir), slab_t(mx, origin, dir))
}

/// `(t_min, t_max)` narrowed by all three slabs: its lower end.
pub open spec fn slab_enter(b: AABB, r: Ray, t_min: int) -> int {
    s_max(
        s_max(
            s_max(t_min, slab_lo(b.min.x as int, b.max.x as int, r.a.x as int, r.b.x as int)),
            slab_lo(b.min.y as int, b.max.y as int, r.a.y as int, r.b.y as int),
        ),
        slab_lo(b.min.z as int, b.max.z as int, r.a.z as int, r.b.z as int),
    )
}

/// `(t_min, t_max)` narrowed by all three slabs: its upper end.
pub open spec fn slab_exit(b: AABB, r: Ray, t_max: int) -> int {
    s_min(
        s_min(
            s_min(t_max, slab_hi(b.min.x as int, b.max.x as int, r.a.x as int, r.b.x as int)),
            slab_hi(b.min.y as int, b.max.y as int, r.a.y as int, r.b.y as int),
        ),
        slab_hi(b.min.z as int, b.max.z as int, r.a.z as int, r.b.z as int),
    )
}

/// The slab test: the ray's parameter interval, narrowed by all three
/// axis slabs, is still nonempty.
pub open spec fn aabb_hit_spec(b: AABB, r: Ray, t_min: int, t_max: int) -> bool {
    slab_enter(b, r, t_min) < slab_exit(b, r, t_max)
}

/// A nonempty open interval `(l, h)` that lies inside `(t_min, t_max)`
/// and inside all three axis slabs.
pub open spec fn crossing_window(b: AABB, r: Ray, t_min: int, t_max: int, l: int, h: int) -> bool {
    &&& l < h
    &&& t_min <= l
    &&& h <= t_max
    &&& slab_lo(b.min.x as int, b.max.x as int, r.a.x as int, r.b.x as int) <= l
    &&& h <= slab_hi(b.min.x as int, b.max.x as int, r.a.x as int, r.b.x as int)
    &&& slab_lo(b.min.y as int, b.max.y as int, r.a.y as int, r.b.y as int) <= l
    &&& h <= slab_hi(b.min.y as int, b.max.y as int, r.a.y as int, r.b.y as int)
    &&& slab_lo(b.min.z as int, b.max.z as int, r.a.z as int, r.b.z as int) <= l
    &&& h <= slab_hi(b.min.z as int, b.max.z as int, r.a.z as int, r.b.z as int)
}

/// The slab test is false whenever the narrowed interval is empty, and
/// true exactly when the ray's parameter line keeps a nonempty window
/// through all three slabs inside `(t_min, t_max)`.
pub proof fn lemma_aabb_hit_crossing(b: AABB, r: Ray, t_min: int, t_max: int)
    ensures
        t_max <= t_min ==> !aabb_hit_spec(b, r, t_min, t_max),
        aabb_hit_spec(b, r, t_min, t_max) <==> exists|l: int, h: int|
            crossing_window(b, r, t_min, t_max, l, h),
{
    if aabb_hit_spec(b, r, t_min, t_max) {
        let l = slab_enter(b, r, t_min);
        let h = slab_exit(b, r, t_max);
        assert(crossing_window(b, r, t_min, t_max, l, h));
    }
}

impl AABB {
    pub fn min(&self) -> (r: Vec3)
        ensures
            r == self.min,
    {
        self.min
    }

    pub fn max(&self) -> (r: Vec3)
        ensures
            r == self.max,
    {
        self.max
    }

    /// The slab test, one axis at a time, giving up as soon as the
    /// narrowed interval is empty.
    pub fn hit(&self, r: &Ray, tmin: i64, tmax: i64) -> (res: bool)
        ensures
            res == aabb_hit_spec(*self, *r, tmin as int, tmax as int),
    {
        let tx0 = fx_div(fx_sub(self.min.x, r.a.x), r.b.x);
        let tx1 = fx_div(fx_sub(self.max.x, r.a.x), r.b.x);
        let tmin_x = ffmax(ffmin(tx0, tx1), tmin);
        let tmax_x = ffmin(ffmax(tx0, tx1), tmax);
        if tmax_x <= tmin_x {
            return false;
        }
        let ty0 = fx_div(fx_sub(self.min.y, r.a.y), r.b.y);
        let ty1 = fx_div(fx_sub(self.max.y, r.a.y), r.b.y);
        let tmin_y = ffmax(ffmin(ty0, ty1), tmin_x);
        let tmax_y = ffmin(ffmax(ty0, ty1), tmax_x);
        if tmax_y <= tmin_y {
            return false;
        }
        let tz0 = fx_div(fx_sub(self.min.z, r.a.z), r.b.z);
        let tz1 = fx_div(fx_sub(self.max.z, r.a.z), r.b.z);
        let tmin_z = ffmax(ffmin(tz0, tz1), tmin_y);
        let tmax_z = ffmin(ffmax(tz0, tz1), tmax_y);
        tmax_z > tmin_z
    }
}

} // verus!
