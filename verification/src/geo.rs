//! Intersectable geometry: spheres, moving spheres, and aggregates.
//!
//! Every variant answers the same two questions — where does a ray
//! first meet the surface inside an open parameter window, and what box
//! bounds the surface over a time interval — and each answer is pinned
//! to a spec mirror, so the aggregates' contracts compose exactly.
use crate::bvh::{aabb_encloses, aabb_hit_spec, s_surrounding, surrounding_box, AABB};
use crate::fixed::{fx_add, fx_div, fx_mul, fx_neg, fx_sqrt, fx_sub, lemma_s_mul_one,
    lemma_sqrt_exact, lemma_tdiv_mul_cancel, s_add, s_div, s_mul, s_neg, s_sqrt, s_sub, tdiv,
    FX_MAX, FX_ONE};
use crate::material::Material;
use crate::rng::rand_axis_index;
use crate::vec3::{s_dot, sv_add, sv_div_s, sv_point_at, sv_scale, sv_sub, Ray, Vec3};
use vstd::prelude::*;
use vstd::seq_lib::*;

verus! {

/// The result of a successful ray-surface intersection: the ray
/// parameter, the world point, the surface normal, and the material
/// that governs the surface there.
#[derive(Clone, Copy, Debug, PartialEq, Eq, Structural)]
pub struct HitRecord {
    pub t: i64,
    pub p: Vec3,
    pub normal: Vec3,
    pub material: Material,
}

/// A surface a ray can intersect.  `hit_spec` and `bbox_spec` are the
/// variant's mathematical model; the executable methods must return
/// exactly them, and a returned parameter always lies strictly inside
/// the query window.
pub trait Hittable: Sized {
    spec fn wf(&self) -> bool;

    spec fn hit_spec(&self, r: Ray, t_min: int, t_max: int) -> Option<HitRecord>;

    spec fn bbox_spec(&self, t0: int, t1: int) -> Option<AABB>;

    fn hit(&self, r: &Ray, t_min: i64, t_max: i64) -> (res: Option<HitRecord>)
        requires
            self.wf(),
        ensures
            res == self.hit_spec(*r, t_min as int, t_max as int),
            res matches Some(rec) ==> t_min < rec.t && rec.t < t_max,
    ;

    fn bounding_box(&self, t0: i64, t1: i64) -> (res: Option<AABB>)
        requires
            self.wf(),
        ensures
            res == self.bbox_spec(t0 as int, t1 as int),
    ;
}

/// The ray parameter at which a ray meets a sphere inside the open
/// window `(t_min, t_max)`: the smaller root of the intersection
/// quadratic when the discriminant is positive and the root is in the
/// window, else the larger root under the same test, else nothing.
pub open spec fn sphere_hit_t(center: Vec3, radius: int, r: Ray, t_min: int, t_max: int) -> Option<
    int,
> {
    let oc = sv_sub(r.a, center);
    let a = s_dot(r.b, r.b);
    let b = s_dot(oc, r.b);
    let c = s_sub(s_dot(oc, oc), s_mul(radius, radius));
    let disc = s_sub(s_mul(b, b), s_mul(a, c));
    if disc > 0 {
        let sq = s_sqrt(disc);
        let temp_minus = s_div(s_sub(s_neg(b), sq), a);
        if t_min < temp_minus && temp_minus < t_max {
            Some(temp_minus)
        } else {
            let temp_plus = s_div(s_add(s_neg(b), sq), a);
            if t_min < temp_plus && temp_plus < t_max {
                Some(temp_plus)
            } else {
                None
            }
        }
    } else {
        None
    }
}

/// The record a sphere hit at parameter `t` produces: the point along
/// the ray and the normal `(p - center) / radius`, whose sign follows
/// the radius so hollow (negative-radius) shells face inward.
pub open spec fn sphere_hit_record(
    center: Vec3,
    radius: int,
    material: Material,
    r: Ray,
    t: int,
) -> HitRecord {
    let p = sv_point_at(r, t);
    HitRecord { t: t as i64, p, normal: sv_div_s(sv_sub(p, center), radius), material }
}

/// What a sphere with the given center returns for a ray.
pub open spec fn sphere_hit_spec(
    center: Vec3,
    radius: int,
    material: Material,
    r: Ray,
    t_min: int,
    t_max: int,
) -> Option<HitRecord> {
    match sphere_hit_t(center, radius, r, t_min, t_max) {
        Some(t) => Some(sphere_hit_record(center, radius, material, r, t)),
        None => None,
    }
}

/// Solve the intersection quadratic against a fixed center.
fn sphere_hit(
    center: Vec3,
    radius: i64,
    material: Material,
    r: &Ray,
    t_min: i64,
    t_max: i64,
) -> (res: Option<HitRecord>)
    ensures
        res == sphere_hit_spec(center, radius as int, material, *r, t_min as int, t_max as int),
        res matches Some(rec) ==> t_min < rec.t && rec.t < t_max,
{
    let oc = r.origin().sub(center);
    let a = r.direction().dot(r.direction());
    let b = oc.dot(r.direction());
    let c = fx_sub(oc.dot(oc), fx_mul(radius, radius));
    let discriminant = fx_sub(fx_mul(b, b), fx_mul(a, c));
    if discriminant > 0 {
        let sq = fx_sqrt(discriminant);
        let temp_minus = fx_div(fx_sub(fx_neg(b), sq), a);
        if temp_minus < t_max && temp_minus > t_min {
            let p = r.point_at_parameter(temp_minus);
            let normal = p.sub(center).div_s(radius);
            return Some(HitRecord { t: temp_minus, p, normal, material });
        }
        let temp_plus = fx_div(fx_add(fx_neg(b), sq), a);
        if temp_plus < t_max && temp_plus > t_min {
            let p = r.point_at_parameter(temp_plus);
            let normal = p.sub(center).div_s(radius);
            return Some(HitRecord { t: temp_plus, p, normal, material });
        }
        None
    } else {
        None
    }
}

#[derive(Clone, Copy, Debug, PartialEq, Eq, Structural)]
pub struct Sphere {
    pub center: Vec3,
    pub radius: i64,
    pub material: Material,
}

impl Sphere {
    pub fn new(center: Vec3, radius: i64, material: Material) -> (s: Sphere)
        ensures
            s == (Sphere { center, radius, material }),
    {
        Sphere { center, radius, material }
    }
}

/// The box a sphere spans: its center pushed out by the radius in every
/// direction.
pub open spec fn sphere_bbox(center: Vec3, radius: i64) -> AABB {
    let rvec = Vec3 { x: radius, y: radius, z: radius };
    AABB { min: sv_sub(center, rvec), max: sv_add(center, rvec) }
}

impl Hittable for Sphere {
    open spec fn wf(&self) -> bool {
        true
    }

    open spec fn hit_spec(&self, r: Ray, t_min: int, t_max: int) -> Option<HitRecord> {
        sphere_hit_spec(self.center, self.radius as int, self.material, r, t_min, t_max)
    }

    open spec fn bbox_spec(&self, t0: int, t1: int) -> Option<AABB> {
        Some(sphere_bbox(self.center, self.radius))
    }

    fn hit(&self, r: &Ray, t_min: i64, t_max: i64) -> (res: Option<HitRecord>) {
        sphere_hit(self.center, self.radius, self.material, r, t_min, t_max)
    }

    fn bounding_box(&self, t0: i64, t1: i64) -> (res: Option<AABB>) {
        let rvec = Vec3 { x: self.radius, y: self.radius, z: self.radius };
        Some(AABB { min: self.center.sub(rvec), max: self.center.add(rvec) })
    }
}

#[derive(Clone, Copy, Debug, PartialEq, Eq, Structural)]
pub struct MovingSphere {
    pub center0: Vec3,
    pub center1: Vec3,
    pub time0: i64,
    pub time1: i64,
    pub radius: i64,
    pub material: Material,
}

/// The interpolated center
/// `center0 + ((t - time0) / (time1 - time0)) * (center1 - center0)`.
pub open spec fn moving_center(s: MovingSphere, time: int) -> Vec3 {
    let k = s_div(s_sub(time, s.time0 as int), s_sub(s.time1 as int, s.time0 as int));
    sv_add(s.center0, sv_scale(sv_sub(s.center1, s.center0), k))
}

impl MovingSphere {
    pub fn new(
        center0: Vec3,
        center1: Vec3,
        time0: i64,
        time1: i64,
        radius: i64,
        material: Material,
    ) -> (s: MovingSphere)
        ensures
            s == (MovingSphere { center0, center1, time0, time1, radius, material }),
    {
        MovingSphere { center0, center1, time0, time1, radius, material }
    }

    /// The center at a moment of the sphere's time interval.  The
    /// interval must not be degenerate; with `time0 == time1` the
    /// interpolation has no meaning.
    pub fn center(&self, time: i64) -> (r: Vec3)
        requires
            self.time0 != self.time1,
        ensures
            r == moving_center(*self, time as int),
    {
        let k = fx_div(fx_sub(time, self.time0), fx_sub(self.time1, self.time0));
        self.center0.add(self.center1.sub(self.center0).scale(k))
    }
}

impl Hittable for MovingSphere {
    open spec fn wf(&self) -> bool {
        self.time0 != self.time1
    }

    open spec fn hit_spec(&self, r: Ray, t_min: int, t_max: int) -> Option<HitRecord> {
        sphere_hit_spec(
            moving_center(*self, r.time as int),
            self.radius as int,
            self.material,
            r,
            t_min,
            t_max,
        )
    }

    open spec fn bbox_spec(&self, t0: int, t1: int) -> Option<AABB> {
        Some(
            s_surrounding(
                sphere_bbox(self.center0, self.radius),
                sphere_bbox(self.center1, self.radius),
            ),
        )
    }

    fn hit(&self, r: &Ray, t_min: i64, t_max: i64) -> (res: Option<HitRecord>) {
        let c = self.center(r.time());
        sphere_hit(c, self.radius, self.material, r, t_min, t_max)
    }

    fn bounding_box(&self, t0: i64, t1: i64) -> (res: Option<AABB>) {
        let rvec = Vec3 { x: self.radius, y: self.radius, z: self.radius };
        let b0 = AABB { min: self.center0.sub(rvec), max: self.center0.add(rvec) };
        let b1 = AABB { min: self.center1.sub(rvec), max: self.center1.add(rvec) };
        Some(surrounding_box(&b0, &b1))
    }
}

/// The closed set of leaf surfaces a scene is made of.
#[derive(Clone, Copy, Debug, PartialEq, Eq, Structural)]
pub enum Geometry {
    Sphere(Sphere),
    MovingSphere(MovingSphere),
}

impl Hittable for Geometry {
    open spec fn wf(&self) -> bool {
        match self {
            Geometry::Sphere(s) => s.wf(),
            Geometry::MovingSphere(m) => m.wf(),
        }
    }

    open spec fn hit_spec(&self, r: Ray, t_min: int, t_max: int) -> Option<HitRecord> {
        match self {
            Geometry::Sphere(s) => s.hit_spec(r, t_min, t_max),
            Geometry::MovingSphere(m) => m.hit_spec(r, t_min, t_max),
        }
    }

    open spec fn bbox_spec(&self, t0: int, t1: int) -> Option<AABB> {
        match self {
            Geometry::Sphere(s) => s.bbox_spec(t0, t1),
            Geometry::MovingSphere(m) => m.bbox_spec(t0, t1),
        }
    }

    fn hit(&self, r: &Ray, t_min: i64, t_max: i64) -> (res: Option<HitRecord>) {
        match self {
            Geometry::Sphere(s) => s.hit(r, t_min, t_max),
            Geometry::MovingSphere(m) => m.hit(r, t_min, t_max),
        }
    }

    fn bounding_box(&self, t0: i64, t1: i64) -> (res: Option<AABB>) {
        match self {
            Geometry::Sphere(s) => s.bounding_box(t0, t1),
            Geometry::MovingSphere(m) => m.bounding_box(t0, t1),
        }
    }
}

/// Every surface of a sequence is well formed.
pub open spec fn all_wf(objs: Seq<Geometry>) -> bool {
    forall|i: int| 0 <= i < objs.len() ==> #[trigger] objs[i].wf()
}

/// What the remaining walk of a list returns, carrying the narrowed
/// window `(t_min, cur_max)` and the best record so far.
pub open spec fn list_hit_from(
    objs: Seq<Geometry>,
    k: int,
    r: Ray,
    t_min: int,
    cur_max: int,
    cur: Option<HitRecord>,
) -> Option<HitRecord>
    decreases objs.len() - k,
{
    if k < 0 || k >= objs.len() {
        cur
    } else {
        match objs[k].hit_spec(r, t_min, cur_max) {
            Some(rec) => list_hit_from(objs, k + 1, r, t_min, rec.t as int, Some(rec)),
            None => list_hit_from(objs, k + 1, r, t_min, cur_max, cur),
        }
    }
}

/// The closest hit a flat list returns: each surface is queried with
/// the window narrowed to the best parameter found so far, so an
/// earlier surface keeps an exact tie.
pub open spec fn list_hit_spec(objs: Seq<Geometry>, r: Ray, t_min: int, t_max: int) -> Option<
    HitRecord,
> {
    list_hit_from(objs, 0, r, t_min, t_max, None)
}

/// What the remaining walk of a list's boxes folds to.
pub open spec fn list_bbox_from(objs: Seq<Geometry>, k: int, t0: int, t1: int, cur: AABB) -> Option<
    AABB,
>
    decreases objs.len() - k,
{
    if k < 0 || k >= objs.len() {
        Some(cur)
    } else {
        match objs[k].bbox_spec(t0, t1) {
            Some(abox) => list_bbox_from(objs, k + 1, t0, t1, s_surrounding(abox, cur)),
            None => None,
        }
    }
}

/// The box of a flat list: the running union of its members' boxes,
/// nothing for an empty list or an unbounded member.
pub open spec fn list_bbox_spec(objs: Seq<Geometry>, t0: int, t1: int) -> Option<AABB> {
    if objs.len() < 1 {
        None
    } else {
        match objs[0].bbox_spec(t0, t1) {
            Some(first) => list_bbox_from(objs, 1, t0, t1, first),
            None => None,
        }
    }
}

/// One step of the box fold: absorbing a bounded member's box narrows
/// nothing and the walk goes on from the next index.
proof fn lemma_list_bbox_step(objs: Seq<Geometry>, k: int, t0: int, t1: int, cur: AABB, ab: AABB)
    requires
        0 <= k < objs.len(),
        objs[k].bbox_spec(t0, t1) == Some(ab),
    ensures
        list_bbox_from(objs, k, t0, t1, cur) == list_bbox_from(
            objs,
            k + 1,
            t0,
            t1,
            s_surrounding(ab, cur),
        ),
{
}

/// A flat aggregate: surfaces queried one after the other.
#[derive(Clone, Debug)]
pub struct HittableList {
    pub list: Vec<Geometry>,
}

impl Hittable for HittableList {
    open spec fn wf(&self) -> bool {
        all_wf(self.list@)
    }

    open spec fn hit_spec(&self, r: Ray, t_min: int, t_max: int) -> Option<HitRecord> {
        list_hit_spec(self.list@, r, t_min, t_max)
    }

    open spec fn bbox_spec(&self, t0: int, t1: int) -> Option<AABB> {
        list_bbox_spec(self.list@, t0, t1)
    }

    fn hit(&self, r: &Ray, t_min: i64, t_max: i64) -> (res: Option<HitRecord>) {
        let mut hit: Option<HitRecord> = None;
        let mut closest_so_far: i64 = t_max;
        let mut k: usize = 0;
        while k < self.list.len()
            invariant
                self.wf(),
                0 <= k <= self.list.len(),
                hit matches Some(rec) ==> t_min < rec.t && rec.t < t_max && closest_so_far
                    == rec.t,
                hit is None ==> closest_so_far == t_max,
                list_hit_from(
                    self.list@,
                    k as int,
                    *r,
                    t_min as int,
                    closest_so_far as int,
                    hit,
                ) == list_hit_spec(self.list@, *r, t_min as int, t_max as int),
            decreases self.list.len() - k,
        {
            let item = &self.list[k];
            match item.hit(r, t_min, closest_so_far) {
                Some(temp_rec) => {
                    closest_so_far = temp_rec.t;
                    hit = Some(temp_rec);
                },
                None => (),
            }
            k = k + 1;
        }
        hit
    }

    fn bounding_box(&self, t0: i64, t1: i64) -> (res: Option<AABB>) {
        if self.list.len() < 1 {
            return None;
        }
        let mut tmp_box: AABB;
        match self.list[0].bounding_box(t0, t1) {
            Some(b) => {
                tmp_box = b;
            },
            None => {
                return None;
            },
        }
        let mut i: usize = 1;
        while i < self.list.len()
            invariant
                all_wf(self.list@),
                1 <= i <= self.list.len(),
                self.list.len() >= 1,
                list_bbox_from(self.list@, i as int, t0 as int, t1 as int, tmp_box)
                    == list_bbox_spec(self.list@, t0 as int, t1 as int),
            decreases self.list.len() - i,
        {
            match self.list[i].bounding_box(t0, t1) {
                Some(abox) => {
                    proof {
                        lemma_list_bbox_step(
                            self.list@,
                            i as int,
                            t0 as int,
                            t1 as int,
                            tmp_box,
                            abox,
                        );
                    }
                    tmp_box = surrounding_box(&abox, &tmp_box);
                },
                None => {
                    return None;
                },
            }
            i = i + 1;
        }
        Some(tmp_box)
    }
}

/// Head-on intersection is symmetric about the center: a ray starting
/// a whole-number distance `dk` up the z axis and aimed straight down
/// it meets a whole-number-radius `rk` sphere at the origin at
/// parameter `dk - rk`, and — queried again past that first crossing —
/// leaves it at `dk + rk`.  (On these inputs every fixed-point step is
/// exact; the bound on `dk` keeps the squares clear of saturation.)
pub proof fn lemma_sphere_head_on(s: Sphere, ray: Ray, dk: int, rk: int)
    requires
        0 < rk < dk <= 0x80_0000,
        s.center == (Vec3 { x: 0, y: 0, z: 0 }),
        s.radius as int == rk * (FX_ONE as int),
        ray.a == (Vec3 { x: 0, y: 0, z: (dk * (FX_ONE as int)) as i64 }),
        ray.b == (Vec3 { x: 0, y: 0, z: (-FX_ONE) as i64 }),
    ensures
        s.hit_spec(ray, 0, FX_MAX as int) is Some,
        s.hit_spec(ray, 0, FX_MAX as int)->Some_0.t as int == (dk - rk) * (FX_ONE as int),
        s.hit_spec(ray, (dk - rk) * (FX_ONE as int), FX_MAX as int) is Some,
        s.hit_spec(ray, (dk - rk) * (FX_ONE as int), FX_MAX as int)->Some_0.t as int == (dk + rk)
            * (FX_ONE as int),
{
    let one = FX_ONE as int;
    let d = dk * one;
    let r = rk * one;
    let dd = dk * dk;
    let rr = rk * rk;
    assert(0 < rr && rr < dd && 0 < r && r < d && d <= 0x80_0000_0000 && d * d == (dd * one) * one
        && r * r == (rr * one) * one && (-d) * (-d) == (dd * one) * one && d * (-one) == (-d)
        * one && (-one) * (-one) == one * one && 0 < rr * one && rr * one < dd * one && dd * one
        <= 0x4000_0000_0000_0000 && (dd - rr) * one == dd * one - rr * one) by (nonlinear_arith)
        requires
            one == 0x10000,
            0 < rk < dk <= 0x80_0000,
            dd == dk * dk,
            rr == rk * rk,
            d == dk * one,
            r == rk * one,
    ;
    let oc = sv_sub(ray.a, s.center);
    assert(oc == (Vec3 { x: 0, y: 0, z: d as i64 }));
    // the quadratic's three coefficients
    assert(tdiv(0, one) == 0) by {
        lemma_tdiv_mul_cancel(0);
    }
    assert(tdiv(one * one, one) == one) by {
        lemma_tdiv_mul_cancel(one);
    }
    let a_val = s_dot(ray.b, ray.b);
    assert(a_val == one);
    assert(tdiv((-d) * one, one) == -d) by {
        lemma_tdiv_mul_cancel(-d);
    }
    let b_val = s_dot(oc, ray.b);
    assert(b_val == -d);
    assert(tdiv((dd * one) * one, one) == dd * one) by {
        lemma_tdiv_mul_cancel(dd * one);
    }
    assert(tdiv((rr * one) * one, one) == rr * one) by {
        lemma_tdiv_mul_cancel(rr * one);
    }
    assert(s_dot(oc, oc) == dd * one);
    assert(s_mul(s.radius as int, s.radius as int) == rr * one);
    let c_val = s_sub(s_dot(oc, oc), s_mul(s.radius as int, s.radius as int));
    assert(c_val == (dd - rr) * one);
    // the discriminant is exactly the squared radius
    assert(s_mul(b_val, b_val) == dd * one);
    lemma_s_mul_one(c_val);
    assert(s_mul(a_val, c_val) == (dd - rr) * one);
    let disc = s_sub(s_mul(b_val, b_val), s_mul(a_val, c_val));
    assert(disc == rr * one);
    // its square root is exactly the radius
    lemma_sqrt_exact((rr * one) * one, r);
    assert(s_sqrt(disc) == r);
    // both roots come out exactly
    assert(s_neg(b_val) == d);
    assert(tdiv((d - r) * one, one) == d - r) by {
        lemma_tdiv_mul_cancel(d - r);
    }
    assert(s_div(s_sub(d, r), a_val) == d - r);
    assert(tdiv((d + r) * one, one) == d + r) by {
        lemma_tdiv_mul_cancel(d + r);
    }
    assert(s_div(s_add(d, r), a_val) == d + r);
    assert(sphere_hit_t(s.center, s.radius as int, ray, 0, FX_MAX as int) == Some(d - r));
    assert(sphere_hit_t(s.center, s.radius as int, ray, d - r, FX_MAX as int) == Some(d + r));
    assert(s.hit_spec(ray, 0, FX_MAX as int)->Some_0.t as int == d - r);
    assert(s.hit_spec(ray, d - r, FX_MAX as int)->Some_0.t as int == d + r);
}

/// A split axis for the tree build.
#[derive(Clone, Copy, Debug, PartialEq, Eq, Structural)]
pub enum Axis {
    X,
    Y,
    Z,
}

/// The sort key of the tree build: the minimum coordinate, along the
/// given axis, of the surface's box at the zero time interval.
pub open spec fn axis_key(g: Geometry, axis: Axis) -> int {
    match g.bbox_spec(0, 0) {
        Some(b) => match axis {
            Axis::X => b.min.x as int,
            Axis::Y => b.min.y as int,
            Axis::Z => b.min.z as int,
        },
        None => 0,
    }
}

/// A leaf surface always has a box; hand it out without the option.
fn geometry_box(g: &Geometry, t0: i64, t1: i64) -> (bb: AABB)
    requires
        g.wf(),
    ensures
        Some(bb) == g.bbox_spec(t0 as int, t1 as int),
{
    match g.bounding_box(t0, t1) {
        Some(b) => b,
        None => {
            proof {
                assert(false);
            }
            AABB {
                min: Vec3 { x: 0, y: 0, z: 0 },
                max: Vec3 { x: 0, y: 0, z: 0 },
            }
        },
    }
}

/// The sort key, computed.
fn axis_key_of(g: &Geometry, axis: Axis) -> (k: i64)
    requires
        g.wf(),
    ensures
        k as int == axis_key(*g, axis),
{
    let b = geometry_box(g, 0, 0);
    match axis {
        Axis::X => b.min.x,
        Axis::Y => b.min.y,
        Axis::Z => b.min.z,
    }
}

/// Order two surfaces by their key along the given axis; a tie counts
/// as greater, so the comparison never answers equal.
pub fn box_compare(a: &Geometry, b: &Geometry, axis: Axis) -> (c: core::cmp::Ordering)
    requires
        a.wf(),
        b.wf(),
    ensures
        c == core::cmp::Ordering::Less <==> axis_key(*a, axis) < axis_key(*b, axis),
        c == core::cmp::Ordering::Less || c == core::cmp::Ordering::Greater,
{
    let ka = axis_key_of(a, axis);
    let kb = axis_key_of(b, axis);
    if fx_sub(ka, kb) < 0 {
        core::cmp::Ordering::Less
    } else {
        core::cmp::Ordering::Greater
    }
}

pub fn box_x_compare(a: &Geometry, b: &Geometry) -> (c: core::cmp::Ordering)
    requires
        a.wf(),
        b.wf(),
    ensures
        c == core::cmp::Ordering::Less <==> axis_key(*a, Axis::X) < axis_key(*b, Axis::X),
        c == core::cmp::Ordering::Less || c == core::cmp::Ordering::Greater,
{
    box_compare(a, b, Axis::X)
}

pub fn box_y_compare(a: &Geometry, b: &Geometry) -> (c: core::cmp::Ordering)
    requires
        a.wf(),
        b.wf(),
    ensures
        c == core::cmp::Ordering::Less <==> axis_key(*a, Axis::Y) < axis_key(*b, Axis::Y),
        c == core::cmp::Ordering::Less || c == core::cmp::Ordering::Greater,
{
    box_compare(a, b, Axis::Y)
}

pub fn box_z_compare(a: &Geometry, b: &Geometry) -> (c: core::cmp::Ordering)
    requires
        a.wf(),
        b.wf(),
    ensures
        c == core::cmp::Ordering::Less <==> axis_key(*a, Axis::Z) < axis_key(*b, Axis::Z),
        c == core::cmp::Ordering::Less || c == core::cmp::Ordering::Greater,
{
    box_compare(a, b, Axis::Z)
}

/// Nondecreasing keys along the given axis.
pub open spec fn sorted_by_key(s: Seq<Geometry>, axis: Axis) -> bool {
    forall|i: int, j: int|
        0 <= i < j < s.len() ==> #[trigger] axis_key(s[i], axis) <= #[trigger] axis_key(
            s[j],
            axis,
        )
}

/// Insertion sort by the key along the given axis: the surfaces are
/// rearranged, none added or lost.
fn sort_by_axis(v: &mut Vec<Geometry>, axis: Axis)
    requires
        all_wf(old(v)@),
    ensures
        final(v)@.len() == old(v)@.len(),
        final(v)@.to_multiset() == old(v)@.to_multiset(),
        sorted_by_key(final(v)@, axis),
        all_wf(final(v)@),
        forall|g: Geometry| final(v)@.contains(g) <==> old(v)@.contains(g),
{
    proof {
        broadcast use vstd::seq_lib::group_to_multiset_ensures;

    }
    if v.len() <= 1 {
        return ;
    }
    let ghost orig = v@;
    let mut i: usize = 1;
    while i < v.len()
        invariant
            1 <= i <= v@.len(),
            v@.len() == orig.len(),
            v@.len() >= 2,
            v@.to_multiset() == orig.to_multiset(),
            all_wf(v@),
            sorted_by_key(v@.take(i as int), axis),
        decreases v@.len() - i,
    {
        let mut j: usize = i;
        proof {
            assert forall|a: int, b: int|
                0 <= a < b <= i as int && b != j as int implies #[trigger] axis_key(v@[a], axis)
                <= #[trigger] axis_key(v@[b], axis) by {
                assert(v@.take(i as int)[a] == v@[a]);
                assert(v@.take(i as int)[b] == v@[b]);
            }
        }
        while j > 0 && axis_key_of(&v[j - 1], axis) > axis_key_of(&v[j], axis)
            invariant
                0 <= j <= i < v@.len(),
                v@.len() == orig.len(),
                v@.to_multiset() == orig.to_multiset(),
                all_wf(v@),
                forall|a: int, b: int|
                    0 <= a < b <= i as int && b != j as int ==> #[trigger] axis_key(v@[a], axis)
                        <= #[trigger] axis_key(v@[b], axis),
            decreases j,
        {
            let ghost pre = v@;
            let x = v[j - 1];
            let y = v[j];
            v.set(j - 1, y);
            v.set(j, x);
            proof {
                broadcast use vstd::seq_lib::group_to_multiset_ensures;
                broadcast use vstd::seq_lib::to_multiset_update;

                assert(v@ == pre.update(j - 1, y).update(j as int, x));
                assert(pre.update(j - 1, y).to_multiset() == pre.to_multiset().insert(y).remove(
                    x,
                ));
                assert(pre.update(j - 1, y)[j as int] == y);
                assert(v@.to_multiset() == pre.to_multiset().insert(y).remove(x).insert(x).remove(
                    y,
                ));
                assert(v@.to_multiset() =~= pre.to_multiset());
                assert forall|k: int| 0 <= k < v@.len() implies #[trigger] v@[k].wf() by {
                    assert(pre[k].wf());
                    if k == j - 1 {
                        assert(v@[k] == pre[j as int]);
                    } else if k == j {
                        assert(v@[k] == pre[j - 1]);
                    }
                }
            }
            j = j - 1;
        }
        proof {
            assert forall|a: int, b: int| 0 <= a < b <= i as int implies #[trigger] axis_key(
                v@[a],
                axis,
            ) <= #[trigger] axis_key(v@[b], axis) by {
                if b == j as int {
                    if j > 0 {
                        assert(axis_key(v@[j - 1], axis) <= axis_key(v@[j as int], axis));
                        if a < j - 1 {
                            assert(axis_key(v@[a], axis) <= axis_key(v@[j - 1], axis));
                        }
                    }
                }
            }
            assert(sorted_by_key(v@.take(i as int + 1), axis)) by {
                assert forall|a: int, b: int|
                    0 <= a < b < (i + 1) as int implies #[trigger] axis_key(
                    v@.take(i as int + 1)[a],
                    axis,
                ) <= #[trigger] axis_key(v@.take(i as int + 1)[b], axis) by {
                    assert(v@.take(i as int + 1)[a] == v@[a]);
                    assert(v@.take(i as int + 1)[b] == v@[b]);
                    assert(axis_key(v@[a], axis) <= axis_key(v@[b], axis));
                }
            }
        }
        i = i + 1;
    }
    proof {
        assert(v@.take(v@.len() as int) =~= v@);
        broadcast use vstd::seq_lib::group_to_multiset_ensures;

        assert forall|g: Geometry| v@.contains(g) <==> orig.contains(g) by {
            assert(v@.contains(g) <==> v@.to_multiset().count(g) > 0);
            assert(orig.contains(g) <==> orig.to_multiset().count(g) > 0);
        }
    }
}

/// A child of a tree node: a leaf surface held inline, or an earlier
/// node of the arena.
#[derive(Clone, Copy, Debug, PartialEq, Eq, Structural)]
pub enum BvhChild {
    Leaf(Geometry),
    Node(usize),
}

/// One node of the arena: two children and the box that covers both.
#[derive(Clone, Copy, Debug, PartialEq, Eq, Structural)]
pub struct BvhArenaNode {
    pub left: BvhChild,
    pub right: BvhChild,
    pub bbox: AABB,
}

/// A child is sound at position `i`: an inner child points strictly
/// earlier in the arena and a leaf child is well formed.
pub open spec fn bvh_child_ok(c: BvhChild, i: int) -> bool {
    match c {
        BvhChild::Leaf(g) => g.wf(),
        BvhChild::Node(j) => 0 <= j < i,
    }
}

/// Both children of the node at `i` are sound.
pub open spec fn bvh_node_ok(nodes: Seq<BvhArenaNode>, i: int) -> bool {
    bvh_child_ok(nodes[i].left, i) && bvh_child_ok(nodes[i].right, i)
}

/// Every node's children are sound, so traversal descends.
pub open spec fn bvh_wf(nodes: Seq<BvhArenaNode>) -> bool {
    forall|i: int| 0 <= i < nodes.len() ==> #[trigger] bvh_node_ok(nodes, i)
}

/// The box a child covers over the build's time interval.
pub open spec fn bvh_child_box(nodes: Seq<BvhArenaNode>, c: BvhChild, t0: int, t1: int) -> AABB {
    match c {
        BvhChild::Leaf(g) => g.bbox_spec(t0, t1)->Some_0,
        BvhChild::Node(j) => nodes[j as int].bbox,
    }
}

/// A node's stored box is the union of its children's boxes.
pub open spec fn bvh_node_boxes_ok(nodes: Seq<BvhArenaNode>, i: int, t0: int, t1: int) -> bool {
    nodes[i].bbox == s_surrounding(
        bvh_child_box(nodes, nodes[i].left, t0, t1),
        bvh_child_box(nodes, nodes[i].right, t0, t1),
    )
}

/// Every node's stored box is the union of its children's boxes over
/// the interval the tree was built for.
pub open spec fn bvh_boxes_ok(nodes: Seq<BvhArenaNode>, t0: int, t1: int) -> bool {
    forall|i: int| 0 <= i < nodes.len() ==> #[trigger] bvh_node_boxes_ok(nodes, i, t0, t1)
}

/// The surface `g` is a leaf of the subtree rooted at `i`.
pub open spec fn bvh_contains(nodes: Seq<BvhArenaNode>, i: int, g: Geometry) -> bool
    decreases i,
{
    if 0 <= i < nodes.len() {
        (match nodes[i].left {
            BvhChild::Leaf(l) => l == g,
            BvhChild::Node(j) => 0 <= j < i && bvh_contains(nodes, j as int, g),
        }) || (match nodes[i].right {
            BvhChild::Leaf(l) => l == g,
            BvhChild::Node(j) => 0 <= j < i && bvh_contains(nodes, j as int, g),
        })
    } else {
        false
    }
}

/// The nearer of two optional hits; an exact tie goes to the right one.
pub open spec fn combine_hits(hl: Option<HitRecord>, hr: Option<HitRecord>) -> Option<HitRecord> {
    match (hl, hr) {
        (Some(l), Some(r)) => if l.t < r.t {
            Some(l)
        } else {
            Some(r)
        },
        (Some(l), None) => Some(l),
        (None, Some(r)) => Some(r),
        (None, None) => None,
    }
}

/// What traversal of the subtree rooted at `i` returns: nothing when
/// the slab test prunes the node, else the nearer of the two children's
/// answers over the same window.
pub open spec fn bvh_node_hit(
    nodes: Seq<BvhArenaNode>,
    i: int,
    r: Ray,
    t_min: int,
    t_max: int,
) -> Option<HitRecord>
    decreases i,
{
    if 0 <= i < nodes.len() {
        let n = nodes[i];
        if aabb_hit_spec(n.bbox, r, t_min, t_max) {
            let hl = match n.left {
                BvhChild::Leaf(g) => g.hit_spec(r, t_min, t_max),
                BvhChild::Node(j) => if 0 <= j < i {
                    bvh_node_hit(nodes, j as int, r, t_min, t_max)
                } else {
                    None
                },
            };
            let hr = match n.right {
                BvhChild::Leaf(g) => g.hit_spec(r, t_min, t_max),
                BvhChild::Node(j) => if 0 <= j < i {
                    bvh_node_hit(nodes, j as int, r, t_min, t_max)
                } else {
                    None
                },
            };
            combine_hits(hl, hr)
        } else {
            None
        }
    } else {
        None
    }
}

/// A binary tree over the surfaces, stored bottom-up in an arena; the
/// last node is the root.
#[derive(Clone, Debug)]
pub struct BVHNode {
    pub nodes: Vec<BvhArenaNode>,
}

impl Hittable for BVHNode {
    open spec fn wf(&self) -> bool {
        self.nodes@.len() > 0 && bvh_wf(self.nodes@)
    }

    open spec fn hit_spec(&self, r: Ray, t_min: int, t_max: int) -> Option<HitRecord> {
        bvh_node_hit(self.nodes@, self.nodes@.len() - 1, r, t_min, t_max)
    }

    open spec fn bbox_spec(&self, t0: int, t1: int) -> Option<AABB> {
        Some(self.nodes@[self.nodes@.len() - 1].bbox)
    }

    fn hit(&self, r: &Ray, t_min: i64, t_max: i64) -> (res: Option<HitRecord>) {
        self.hit_node(self.nodes.len() - 1, r, t_min, t_max)
    }

    fn bounding_box(&self, t0: i64, t1: i64) -> (res: Option<AABB>) {
        Some(self.nodes[self.nodes.len() - 1].bbox)
    }
}

impl BVHNode {
    /// Walk the subtree rooted at `i`.
    fn hit_node(&self, i: usize, r: &Ray, t_min: i64, t_max: i64) -> (res: Option<HitRecord>)
        requires
            bvh_wf(self.nodes@),
            i < self.nodes@.len(),
        ensures
            res == bvh_node_hit(self.nodes@, i as int, *r, t_min as int, t_max as int),
            res matches Some(rec) ==> t_min < rec.t && rec.t < t_max,
        decreases i,
    {
        let n = self.nodes[i];
        proof {
            assert(bvh_node_ok(self.nodes@, i as int));
        }
        if n.bbox.hit(r, t_min, t_max) {
            let hit_left = match &n.left {
                BvhChild::Leaf(g) => g.hit(r, t_min, t_max),
                BvhChild::Node(j) => self.hit_node(*j, r, t_min, t_max),
            };
            let hit_right = match &n.right {
                BvhChild::Leaf(g) => g.hit(r, t_min, t_max),
                BvhChild::Node(j) => self.hit_node(*j, r, t_min, t_max),
            };
            match (hit_left, hit_right) {
                (Some(left_rec), Some(right_rec)) => {
                    if left_rec.t < right_rec.t {
                        Some(left_rec)
                    } else {
                        Some(right_rec)
                    }
                },
                (Some(left_rec), None) => Some(left_rec),
                (None, Some(right_rec)) => Some(right_rec),
                (None, None) => None,
            }
        } else {
            None
        }
    }
}

/// Leaves of a settled subtree do not change when the arena grows.
proof fn lemma_bvh_contains_frame(n1: Seq<BvhArenaNode>, n2: Seq<BvhArenaNode>, i: int, g: Geometry)
    requires
        n1.len() <= n2.len(),
        n2.subrange(0, n1.len() as int) == n1,
        0 <= i < n1.len(),
    ensures
        bvh_contains(n2, i, g) == bvh_contains(n1, i, g),
    decreases i,
{
    assert(n2[i] == n1[i]);
    match n1[i].left {
        BvhChild::Node(j) => {
            if 0 <= j < i {
                lemma_bvh_contains_frame(n1, n2, j as int, g);
            }
        },
        BvhChild::Leaf(_) => {},
    }
    match n1[i].right {
        BvhChild::Node(j) => {
            if 0 <= j < i {
                lemma_bvh_contains_frame(n1, n2, j as int, g);
            }
        },
        BvhChild::Leaf(_) => {},
    }
}

/// Soundness and box structure of settled nodes do not change when the
/// arena grows.
proof fn lemma_bvh_grow(n1: Seq<BvhArenaNode>, n2: Seq<BvhArenaNode>, t0: int, t1: int)
    requires
        n1.len() <= n2.len(),
        n2.subrange(0, n1.len() as int) == n1,
        bvh_wf(n1),
        bvh_boxes_ok(n1, t0, t1),
    ensures
        forall|i: int| 0 <= i < n1.len() ==> #[trigger] bvh_node_boxes_ok(n2, i, t0, t1),
        forall|i: int| 0 <= i < n1.len() ==> #[trigger] bvh_node_ok(n2, i),
{
    assert forall|i: int| 0 <= i < n1.len() implies #[trigger] bvh_node_ok(n2, i) by {
        assert(n2[i] == n1[i]);
        assert(bvh_node_ok(n1, i));
    }
    assert forall|i: int| 0 <= i < n1.len() implies #[trigger] bvh_node_boxes_ok(n2, i, t0, t1) by {
        assert(n2[i] == n1[i]);
        assert(bvh_node_boxes_ok(n1, i, t0, t1));
        assert(bvh_node_ok(n1, i));
        match n1[i].left {
            BvhChild::Node(j) => {
                assert(n2[j as int] == n1[j as int]);
            },
            BvhChild::Leaf(_) => {},
        }
        match n1[i].right {
            BvhChild::Node(j) => {
                assert(n2[j as int] == n1[j as int]);
            },
            BvhChild::Leaf(_) => {},
        }
    }
}

/// A sequence split in two holds a surface exactly when one half does.
proof fn lemma_split_contains(s: Seq<Geometry>, mid: int)
    requires
        0 <= mid <= s.len(),
    ensures
        forall|g: Geometry|
            #[trigger] s.contains(g) <==> s.subrange(0, mid).contains(g) || s.subrange(
                mid,
                s.len() as int,
            ).contains(g),
{
    let left = s.subrange(0, mid);
    let right = s.subrange(mid, s.len() as int);
    assert forall|g: Geometry|
        #[trigger] s.contains(g) <==> left.contains(g) || right.contains(g) by {
        if s.contains(g) {
            let k = choose|k: int| 0 <= k < s.len() && s[k] == g;
            if k < mid {
                assert(left[k] == g);
                assert(left.contains(g));
            } else {
                assert(right[k - mid] == g);
                assert(right.contains(g));
            }
        }
        if left.contains(g) {
            let k = choose|k: int| 0 <= k < left.len() && left[k] == g;
            assert(s[k] == g);
            assert(s.contains(g));
        }
        if right.contains(g) {
            let k = choose|k: int| 0 <= k < right.len() && right[k] == g;
            assert(s[k + mid] == g);
            assert(s.contains(g));
        }
    }
}

/// A two-element rearrangement is the pair itself or the pair swapped.
proof fn lemma_two_perm(s1: Seq<Geometry>, s2: Seq<Geometry>)
    requires
        s1.len() == 2,
        s2.len() == 2,
        forall|g: Geometry| s1.contains(g) <==> s2.contains(g),
    ensures
        (s2[0] == s1[0] && s2[1] == s1[1]) || (s2[0] == s1[1] && s2[1] == s1[0]),
{
    assert(s1.contains(s1[0]));
    assert(s1.contains(s1[1]));
    assert(s2.contains(s2[0]));
    assert(s2.contains(s2[1]));
    assert forall|g: Geometry| s2.contains(g) implies g == s2[0] || g == s2[1] by {
        let k = choose|k: int| 0 <= k < s2.len() && s2[k] == g;
    }
    assert forall|g: Geometry| s1.contains(g) implies g == s1[0] || g == s1[1] by {
        let k = choose|k: int| 0 <= k < s1.len() && s1[k] == g;
    }
}

impl BVHNode {
    /// Build a tree over the surfaces by sorting them along a randomly
    /// chosen axis and splitting at the median, recursively.  An empty
    /// list is a configuration error the caller must rule out.  The
    /// finished tree holds exactly the given surfaces as leaves, every
    /// stored box is the union of the boxes below it, and a one- or
    /// two-surface tree is a single node over the surfaces themselves.
    pub fn new(
        hitable: Vec<Geometry>,
        time0: i64,
        time1: i64,
        rng: &mut rand::rngs::StdRng,
    ) -> (b: BVHNode)
        requires
            hitable@.len() >= 1,
            all_wf(hitable@),
        ensures
            b.wf(),
            bvh_boxes_ok(b.nodes@, time0 as int, time1 as int),
            forall|g: Geometry|
                #[trigger] bvh_contains(b.nodes@, b.nodes@.len() - 1, g) <==> hitable@.contains(g),
            hitable@.len() == 1 ==> b.nodes@.last().left == BvhChild::Leaf(hitable@[0])
                && b.nodes@.last().right == BvhChild::Leaf(hitable@[0]),
            hitable@.len() == 2 ==> (b.nodes@.last().left == BvhChild::Leaf(hitable@[0])
                && b.nodes@.last().right == BvhChild::Leaf(hitable@[1])) || (b.nodes@.last().left
                == BvhChild::Leaf(hitable@[1]) && b.nodes@.last().right == BvhChild::Leaf(
                hitable@[0],
            )),
    {
        let mut nodes: Vec<BvhArenaNode> = Vec::new();
        let _root = Self::build(&mut nodes, hitable, time0, time1, rng);
        BVHNode { nodes }
    }

    /// One recursive step of the build; pushes the subtree's nodes onto
    /// the arena and returns the subtree's root index.
    fn build(
        nodes: &mut Vec<BvhArenaNode>,
        hitable: Vec<Geometry>,
        time0: i64,
        time1: i64,
        rng: &mut rand::rngs::StdRng,
    ) -> (root: usize)
        requires
            hitable@.len() >= 1,
            all_wf(hitable@),
            bvh_wf(old(nodes)@),
            bvh_boxes_ok(old(nodes)@, time0 as int, time1 as int),
        ensures
            old(nodes)@.len() < final(nodes)@.len(),
            final(nodes)@.subrange(0, old(nodes)@.len() as int) == old(nodes)@,
            root as int == final(nodes)@.len() - 1,
            bvh_wf(final(nodes)@),
            bvh_boxes_ok(final(nodes)@, time0 as int, time1 as int),
            forall|g: Geometry|
                #[trigger] bvh_contains(final(nodes)@, root as int, g) <==> hitable@.contains(g),
            hitable@.len() == 1 ==> final(nodes)@[root as int].left == BvhChild::Leaf(hitable@[0])
                && final(nodes)@[root as int].right == BvhChild::Leaf(hitable@[0]),
            hitable@.len() == 2 ==> {
                ||| (final(nodes)@[root as int].left == BvhChild::Leaf(hitable@[0])
                    && final(nodes)@[root as int].right == BvhChild::Leaf(hitable@[1]))
                ||| (final(nodes)@[root as int].left == BvhChild::Leaf(hitable@[1])
                    && final(nodes)@[root as int].right == BvhChild::Leaf(hitable@[0]))
            },
        decreases hitable@.len(),
    {
        let ghost orig = hitable@;
        let axis_index = rand_axis_index(rng);
        let axis = if axis_index == 0 {
            Axis::X
        } else if axis_index == 1 {
            Axis::Y
        } else {
            Axis::Z
        };
        let mut hitable = hitable;
        sort_by_axis(&mut hitable, axis);
        let len = hitable.len();
        if len == 1 {
            let g = hitable[0];
            let bb = geometry_box(&g, time0, time1);
            let node_box = surrounding_box(&bb, &bb);
            let node = BvhArenaNode {
                left: BvhChild::Leaf(g),
                right: BvhChild::Leaf(g),
                bbox: node_box,
            };
            nodes.push(node);
            let root = nodes.len() - 1;
            proof {
                let n2 = nodes@;
                let n1 = n2.subrange(0, n2.len() - 1);
                assert(n1 =~= old(nodes)@);
                lemma_bvh_grow(old(nodes)@, n2, time0 as int, time1 as int);
                assert(bvh_wf(n2)) by {
                    assert(bvh_node_ok(n2, root as int));
                }
                assert(bvh_node_boxes_ok(n2, root as int, time0 as int, time1 as int));
                assert(orig.contains(orig[0])) by {
                    assert(orig[0] == orig[0]);
                }
                assert(hitable@[0] == orig[0]) by {
                    assert(hitable@.contains(hitable@[0]));
                    let k = choose|k: int| 0 <= k < orig.len() && orig[k] == hitable@[0];
                }
                assert forall|g2: Geometry|
                    #[trigger] bvh_contains(n2, root as int, g2) <==> orig.contains(g2) by {
                    if orig.contains(g2) {
                        let k = choose|k: int| 0 <= k < orig.len() && orig[k] == g2;
                        assert(g2 == orig[0]);
                    }
                }
            }
            root
        } else if len == 2 {
            let g0 = hitable[0];
            let g1 = hitable[1];
            let b0 = geometry_box(&g0, time0, time1);
            let b1 = geometry_box(&g1, time0, time1);
            let node_box = surrounding_box(&b0, &b1);
            let node = BvhArenaNode {
                left: BvhChild::Leaf(g0),
                right: BvhChild::Leaf(g1),
                bbox: node_box,
            };
            nodes.push(node);
            let root = nodes.len() - 1;
            proof {
                let n2 = nodes@;
                assert(n2.subrange(0, n2.len() - 1) =~= old(nodes)@);
                lemma_bvh_grow(old(nodes)@, n2, time0 as int, time1 as int);
                assert(bvh_wf(n2)) by {
                    assert(bvh_node_ok(n2, root as int));
                }
                assert(bvh_node_boxes_ok(n2, root as int, time0 as int, time1 as int));
                lemma_two_perm(orig, hitable@);
                assert(orig.contains(orig[0]) && orig.contains(orig[1]));
                assert forall|g2: Geometry|
                    #[trigger] bvh_contains(n2, root as int, g2) <==> orig.contains(g2) by {
                    if orig.contains(g2) {
                        let k = choose|k: int| 0 <= k < orig.len() && orig[k] == g2;
                        assert(g2 == orig[0] || g2 == orig[1]);
                    }
                    if bvh_contains(n2, root as int, g2) {
                        assert(g2 == hitable@[0] || g2 == hitable@[1]);
                        assert(hitable@.contains(g2));
                    }
                }
            }
            root
        } else {
            let mid = len / 2;
            let mut left_objs = hitable;
            let ghost sorted_full = left_objs@;
            let right_objs = left_objs.split_off(mid);
            proof {
                assert(left_objs@ == sorted_full.subrange(0, mid as int));
                assert(right_objs@ == sorted_full.subrange(mid as int, sorted_full.len() as int));
                assert(left_objs@.len() >= 1 && right_objs@.len() >= 1);
                assert(all_wf(left_objs@)) by {
                    assert forall|k: int| 0 <= k < left_objs@.len() implies #[trigger] left_objs@[k].wf() by {
                        assert(left_objs@[k] == sorted_full[k]);
                    }
                }
                assert(all_wf(right_objs@)) by {
                    assert forall|k: int| 0 <= k < right_objs@.len() implies #[trigger] right_objs@[k].wf() by {
                        assert(right_objs@[k] == sorted_full[k + mid]);
                    }
                }
            }
            let li = Self::build(nodes, left_objs, time0, time1, rng);
            let ghost n_after_left = nodes@;
            let ri = Self::build(nodes, right_objs, time0, time1, rng);
            let ghost n_after_right = nodes@;
            let lb = nodes[li].bbox;
            let rb = nodes[ri].bbox;
            let node_box = surrounding_box(&lb, &rb);
            let node = BvhArenaNode {
                left: BvhChild::Node(li),
                right: BvhChild::Node(ri),
                bbox: node_box,
            };
            nodes.push(node);
            let root = nodes.len() - 1;
            proof {
                let n0 = old(nodes)@;
                let n2 = nodes@;
                assert(n2.subrange(0, n2.len() - 1) =~= n_after_right);
                assert(n2.subrange(0, n_after_left.len() as int) =~= n_after_left) by {
                    assert forall|k: int| 0 <= k < n_after_left.len() implies n2.subrange(
                        0,
                        n_after_left.len() as int,
                    )[k] == n_after_left[k] by {
                        assert(n2[k] == n_after_right[k]);
                        assert(n_after_right.subrange(0, n_after_left.len() as int)[k]
                            == n_after_left[k]);
                    }
                }
                assert(n2.subrange(0, n0.len() as int) =~= n0) by {
                    assert forall|k: int| 0 <= k < n0.len() implies n2.subrange(
                        0,
                        n0.len() as int,
                    )[k] == n0[k] by {
                        assert(n2[k] == n_after_right[k]);
                        assert(n_after_right.subrange(0, n_after_left.len() as int)[k]
                            == n_after_left[k]);
                        assert(n_after_left.subrange(0, n0.len() as int)[k] == n0[k]);
                    }
                }
                lemma_bvh_grow(n_after_right, n2, time0 as int, time1 as int);
                assert(bvh_wf(n2)) by {
                    assert(bvh_node_ok(n2, root as int));
                }
                assert(n2[li as int] == n_after_left[li as int]);
                assert(n2[ri as int] == n_after_right[ri as int]);
                assert(bvh_node_boxes_ok(n2, root as int, time0 as int, time1 as int));
                // leaves: frame both subtrees up to the final arena
                lemma_split_contains(sorted_full, mid as int);
                assert forall|g2: Geometry|
                    #[trigger] bvh_contains(n2, root as int, g2) <==> orig.contains(g2) by {
                    lemma_bvh_contains_frame(n_after_left, n2, li as int, g2);
                    lemma_bvh_contains_frame(n_after_right, n2, ri as int, g2);
                    assert(sorted_full.contains(g2) <==> orig.contains(g2));
                }
            }
            root
        }
    }
}


/// A hit the model reports always lies strictly inside the open query
/// window.
pub proof fn lemma_geometry_hit_range(g: Geometry, r: Ray, t_min: int, t_max: int)
    ensures
        g.hit_spec(r, t_min, t_max) matches Some(rec) ==> t_min < rec.t as int && (
        rec.t as int) < t_max,
{
}

/// Narrowing the window's top to `c` keeps a hit nearer than `c` and
/// discards everything else: the sphere model looks at its two roots in
/// ascending order, so nothing new can appear.
pub proof fn lemma_sphere_hit_narrow(
    center: Vec3,
    radius: int,
    m: Material,
    r: Ray,
    t_min: int,
    c: int,
    t_max: int,
)
    requires
        c <= t_max,
    ensures
        sphere_hit_spec(center, radius, m, r, t_min, c) == (match sphere_hit_spec(
            center,
            radius,
            m,
            r,
            t_min,
            t_max,
        ) {
            Some(rec) => if (rec.t as int) < c {
                Some(rec)
            } else {
                None::<HitRecord>
            },
            None => None::<HitRecord>,
        }),
{
    let oc = sv_sub(r.a, center);
    let a = s_dot(r.b, r.b);
    let b = s_dot(oc, r.b);
    let cc = s_sub(s_dot(oc, oc), s_mul(radius, radius));
    let disc = s_sub(s_mul(b, b), s_mul(a, cc));
    crate::vec3::lemma_s_dot_self_nonneg(r.b);
    if disc > 0 {
        crate::fixed::lemma_s_sqrt_bounds(disc);
        let sq = s_sqrt(disc);
        let num_m = s_sub(s_neg(b), sq);
        let num_p = s_add(s_neg(b), sq);
        crate::fixed::lemma_s_div_mono(num_m, num_p, a);
        let tm = s_div(num_m, a);
        let tp = s_div(num_p, a);
        assert(tm <= tp);
    }
}

/// The narrowing law, lifted over both surface variants.
pub proof fn lemma_geometry_hit_narrow(g: Geometry, r: Ray, t_min: int, c: int, t_max: int)
    requires
        c <= t_max,
    ensures
        g.hit_spec(r, t_min, c) == (match g.hit_spec(r, t_min, t_max) {
            Some(rec) => if (rec.t as int) < c {
                Some(rec)
            } else {
                None::<HitRecord>
            },
            None => None::<HitRecord>,
        }),
{
    match g {
        Geometry::Sphere(s) => {
            lemma_sphere_hit_narrow(s.center, s.radius as int, s.material, r, t_min, c, t_max);
        },
        Geometry::MovingSphere(ms) => {
            lemma_sphere_hit_narrow(
                moving_center(ms, r.time as int),
                ms.radius as int,
                ms.material,
                r,
                t_min,
                c,
                t_max,
            );
        },
    }
}

/// A leaf surface always has a box.
proof fn lemma_geometry_bbox_some(g: Geometry, t0: int, t1: int)
    ensures
        g.bbox_spec(t0, t1) is Some,
{
}


/// Every surface a subtree holds has its box inside the subtree's
/// stored box: the union invariant, propagated down the tree.
pub proof fn lemma_bvh_box_encloses_leaves(
    nodes: Seq<BvhArenaNode>,
    i: int,
    g: Geometry,
    t0: int,
    t1: int,
)
    requires
        bvh_wf(nodes),
        bvh_boxes_ok(nodes, t0, t1),
        0 <= i < nodes.len(),
        bvh_contains(nodes, i, g),
    ensures
        aabb_encloses(nodes[i].bbox, g.bbox_spec(t0, t1)->Some_0),
    decreases i,
{
    assert(bvh_node_ok(nodes, i));
    assert(bvh_node_boxes_ok(nodes, i, t0, t1));
    let lb = bvh_child_box(nodes, nodes[i].left, t0, t1);
    let rb = bvh_child_box(nodes, nodes[i].right, t0, t1);
    crate::bvh::lemma_surrounding_encloses(lb, rb);
    let under_left = match nodes[i].left {
        BvhChild::Leaf(l) => l == g,
        BvhChild::Node(j) => 0 <= j < i && bvh_contains(nodes, j as int, g),
    };
    if under_left {
        match nodes[i].left {
            BvhChild::Leaf(l) => {
                assert(lb == g.bbox_spec(t0, t1)->Some_0);
            },
            BvhChild::Node(j) => {
                lemma_bvh_box_encloses_leaves(nodes, j as int, g, t0, t1);
                assert(aabb_encloses(lb, g.bbox_spec(t0, t1)->Some_0));
            },
        }
    } else {
        match nodes[i].right {
            BvhChild::Leaf(l) => {
                assert(rb == g.bbox_spec(t0, t1)->Some_0);
            },
            BvhChild::Node(j) => {
                lemma_bvh_box_encloses_leaves(nodes, j as int, g, t0, t1);
                assert(aabb_encloses(rb, g.bbox_spec(t0, t1)->Some_0));
            },
        }
    }
}


/// What the rest of the walk promises, given what the walk so far
/// established: the best record in hand is a member's answer over the
/// full window and no member already passed answers nearer.
#[verifier::rlimit(100)]
#[verifier::spinoff_prover]
proof fn lemma_list_hit_from_nearest(
    objs: Seq<Geometry>,
    k: int,
    r: Ray,
    t_min: int,
    cur_max: int,
    cur: Option<HitRecord>,
    t_max: int,
)
    requires
        0 <= k <= objs.len(),
        cur_max <= t_max,
        cur matches Some(c) ==> c.t as int == cur_max && (exists|j: int|
            0 <= j < k && #[trigger] objs[j].hit_spec(r, t_min, t_max) == Some(c)),
        cur is None ==> cur_max == t_max,
        forall|j: int|
            0 <= j < k ==> ((#[trigger] objs[j].hit_spec(r, t_min, t_max)) matches Some(h) ==> (
            cur matches Some(c) && c.t <= h.t)),
    ensures
        list_hit_from(objs, k, r, t_min, cur_max, cur) matches Some(rec) ==> (exists|j: int|
            0 <= j < objs.len() && #[trigger] objs[j].hit_spec(r, t_min, t_max) == Some(rec)),
        list_hit_from(objs, k, r, t_min, cur_max, cur) matches Some(rec) ==> (forall|j: int|
            0 <= j < objs.len() ==> ((#[trigger] objs[j].hit_spec(r, t_min, t_max)) matches Some(
            h,
            ) ==> rec.t <= h.t)),
        list_hit_from(objs, k, r, t_min, cur_max, cur) is None ==> (forall|j: int|
            0 <= j < objs.len() ==> (#[trigger] objs[j].hit_spec(r, t_min, t_max)) is None),
    decreases objs.len() - k,
{
    if k == objs.len() {
    } else {
        lemma_geometry_hit_narrow(objs[k], r, t_min, cur_max, t_max);
        lemma_geometry_hit_range(objs[k], r, t_min, t_max);
        match objs[k].hit_spec(r, t_min, cur_max) {
            Some(rec_k) => {
                assert(objs[k].hit_spec(r, t_min, t_max) == Some(rec_k));
                assert((rec_k.t as int) < cur_max);
                assert forall|j: int|
                    0 <= j < k + 1 implies ((#[trigger] objs[j].hit_spec(r, t_min, t_max))
                    matches Some(h) ==> rec_k.t <= h.t) by {
                    if j < k {
                        match objs[j].hit_spec(r, t_min, t_max) {
                            Some(h) => {
                                let c = cur->Some_0;
                                assert(c.t <= h.t);
                                assert(rec_k.t as int <= c.t as int);
                            },
                            None => {},
                        }
                    }
                }
                lemma_list_hit_from_nearest(
                    objs,
                    k + 1,
                    r,
                    t_min,
                    rec_k.t as int,
                    Some(rec_k),
                    t_max,
                );
            },
            None => {
                assert forall|j: int|
                    0 <= j < k + 1 implies ((#[trigger] objs[j].hit_spec(r, t_min, t_max))
                    matches Some(h) ==> (cur matches Some(c) && c.t <= h.t)) by {
                    if j == k {
                        match objs[k].hit_spec(r, t_min, t_max) {
                            Some(h) => {
                                assert(!((h.t as int) < cur_max));
                                assert((h.t as int) < t_max);
                                assert(cur is Some);
                            },
                            None => {},
                        }
                    }
                }
                lemma_list_hit_from_nearest(objs, k + 1, r, t_min, cur_max, cur, t_max);
            },
        }
    }
}

/// The flat aggregate's law: its answer, when there is one, is one of
/// its members' answers over the queried window, and no member reports
/// an intersection strictly nearer; when there is none, no member
/// intersects the window at all.
pub proof fn lemma_list_hit_nearest(objs: Seq<Geometry>, r: Ray, t_min: int, t_max: int)
    ensures
        list_hit_spec(objs, r, t_min, t_max) matches Some(rec) ==> (exists|j: int|
            0 <= j < objs.len() && #[trigger] objs[j].hit_spec(r, t_min, t_max) == Some(rec)),
        list_hit_spec(objs, r, t_min, t_max) matches Some(rec) ==> (forall|j: int|
            0 <= j < objs.len() ==> ((#[trigger] objs[j].hit_spec(r, t_min, t_max)) matches Some(
            h,
            ) ==> rec.t <= h.t)),
        list_hit_spec(objs, r, t_min, t_max) is None ==> (forall|j: int|
            0 <= j < objs.len() ==> (#[trigger] objs[j].hit_spec(r, t_min, t_max)) is None),
{
    lemma_list_hit_from_nearest(objs, 0, r, t_min, t_max, None, t_max);
}


/// Traversal never invents an intersection: whatever a subtree
/// answers is exactly what one of the surfaces it holds answers over
/// the same window.
pub proof fn lemma_bvh_hit_is_a_leaf_hit(
    nodes: Seq<BvhArenaNode>,
    i: int,
    r: Ray,
    t_min: int,
    t_max: int,
)
    requires
        bvh_wf(nodes),
        0 <= i < nodes.len(),
    ensures
        bvh_node_hit(nodes, i, r, t_min, t_max) matches Some(rec) ==> exists|g: Geometry|
            #[trigger] bvh_contains(nodes, i, g) && g.hit_spec(r, t_min, t_max) == Some(rec),
    decreases i,
{
    assert(bvh_node_ok(nodes, i));
    if bvh_node_hit(nodes, i, r, t_min, t_max) is Some {
        let rec = bvh_node_hit(nodes, i, r, t_min, t_max)->Some_0;
        let hl = match nodes[i].left {
            BvhChild::Leaf(g) => g.hit_spec(r, t_min, t_max),
            BvhChild::Node(j) => if 0 <= j < i {
                bvh_node_hit(nodes, j as int, r, t_min, t_max)
            } else {
                None
            },
        };
        if hl == Some(rec) {
            match nodes[i].left {
                BvhChild::Leaf(g) => {
                    assert(bvh_contains(nodes, i, g) && g.hit_spec(r, t_min, t_max) == Some(rec));
                },
                BvhChild::Node(j) => {
                    lemma_bvh_hit_is_a_leaf_hit(nodes, j as int, r, t_min, t_max);
                    let g = choose|g: Geometry|
                        #[trigger] bvh_contains(nodes, j as int, g) && g.hit_spec(
                            r,
                            t_min,
                            t_max,
                        ) == Some(rec);
                    assert(bvh_contains(nodes, i, g) && g.hit_spec(r, t_min, t_max) == Some(rec));
                },
            }
        } else {
            match nodes[i].right {
                BvhChild::Leaf(g) => {
                    assert(bvh_contains(nodes, i, g) && g.hit_spec(r, t_min, t_max) == Some(rec));
                },
                BvhChild::Node(j) => {
                    lemma_bvh_hit_is_a_leaf_hit(nodes, j as int, r, t_min, t_max);
                    let g = choose|g: Geometry|
                        #[trigger] bvh_contains(nodes, j as int, g) && g.hit_spec(
                            r,
                            t_min,
                            t_max,
                        ) == Some(rec);
                    assert(bvh_contains(nodes, i, g) && g.hit_spec(r, t_min, t_max) == Some(rec));
                },
            }
        }
    }
}

/// A tree of two surfaces answers a ray exactly as the flat list of
/// the same two surfaces does, as long as the root's slab test lets the
/// ray through and the two surfaces do not report distinct hits at
/// exactly the same parameter (the aggregates break such a tie in
/// opposite directions).
pub proof fn lemma_bvh_pair_matches_list(
    b: BVHNode,
    lst: HittableList,
    r: Ray,
    t_min: int,
    t_max: int,
)
    requires
        b.wf(),
        lst.list@.len() == 2,
        (b.nodes@.last().left == BvhChild::Leaf(lst.list@[0]) && b.nodes@.last().right
            == BvhChild::Leaf(lst.list@[1])) || (b.nodes@.last().left == BvhChild::Leaf(
            lst.list@[1],
        ) && b.nodes@.last().right == BvhChild::Leaf(lst.list@[0])),
        aabb_hit_spec(b.nodes@.last().bbox, r, t_min, t_max),
        ({
            let h0 = lst.list@[0].hit_spec(r, t_min, t_max);
            let h1 = lst.list@[1].hit_spec(r, t_min, t_max);
            h0 is Some && h1 is Some && h0 != h1 ==> h0->Some_0.t != h1->Some_0.t
        }),
    ensures
        b.hit_spec(r, t_min, t_max) == lst.hit_spec(r, t_min, t_max),
{
    let objs = lst.list@;
    let o0 = objs[0];
    let o1 = objs[1];
    let h0 = o0.hit_spec(r, t_min, t_max);
    let h1 = o1.hit_spec(r, t_min, t_max);
    lemma_geometry_hit_range(o0, r, t_min, t_max);
    lemma_geometry_hit_range(o1, r, t_min, t_max);
    let root = b.nodes@.len() - 1;
    let bh = bvh_node_hit(b.nodes@, root, r, t_min, t_max);
    // the tree is one node over the two surfaces; the right child keeps
    // an exact tie
    assert(b.nodes@.last() == b.nodes@[root]);
    if b.nodes@[root].left == BvhChild::Leaf(o0) && b.nodes@[root].right == BvhChild::Leaf(o1) {
        assert(bh == combine_hits(h0, h1));
    } else {
        assert(bh == combine_hits(h1, h0));
    }
    // the list walks the pair, narrowing the window after a first hit
    let lh = list_hit_from(objs, 0, r, t_min, t_max, None);
    match h0 {
        Some(rec0) => {
            lemma_geometry_hit_narrow(o1, r, t_min, rec0.t as int, t_max);
            assert(lh == list_hit_from(objs, 1, r, t_min, rec0.t as int, Some(rec0)));
            match o1.hit_spec(r, t_min, rec0.t as int) {
                Some(rec1) => {
                    assert(lh == list_hit_from(objs, 2, r, t_min, rec1.t as int, Some(rec1)));
                    assert(lh == Some(rec1));
                    assert(h1 == Some(rec1));
                    assert((rec1.t as int) < rec0.t as int);
                    assert(bh == Some(rec1));
                },
                None => {
                    assert(lh == list_hit_from(objs, 2, r, t_min, rec0.t as int, Some(rec0)));
                    assert(lh == Some(rec0));
                    match h1 {
                        Some(rec1) => {
                            assert(!((rec1.t as int) < rec0.t as int));
                            if rec1.t == rec0.t {
                                assert(h0 == h1);
                                assert(bh == Some(rec0));
                            } else {
                                assert(rec0.t < rec1.t);
                                assert(bh == Some(rec0));
                            }
                        },
                        None => {
                            assert(bh == Some(rec0));
                        },
                    }
                },
            }
        },
        None => {
            assert(lh == list_hit_from(objs, 1, r, t_min, t_max, None));
            match h1 {
                Some(rec1) => {
                    assert(lh == list_hit_from(objs, 2, r, t_min, rec1.t as int, Some(rec1)));
                    assert(lh == Some(rec1));
                    assert(bh == Some(rec1));
                },
                None => {
                    assert(lh == list_hit_from(objs, 2, r, t_min, t_max, None));
                    assert(lh is None);
                    assert(bh is None);
                },
            }
        },
    }
    assert(lst.hit_spec(r, t_min, t_max) == lh);
    assert(b.hit_spec(r, t_min, t_max) == bh);
}

/// A tree of two surfaces carries the same bounding box as the flat
/// list of the same two surfaces.
pub proof fn lemma_bvh_pair_box(b: BVHNode, lst: HittableList, t0: int, t1: int)
    requires
        b.wf(),
        lst.list@.len() == 2,
        bvh_boxes_ok(b.nodes@, t0, t1),
        (b.nodes@.last().left == BvhChild::Leaf(lst.list@[0]) && b.nodes@.last().right
            == BvhChild::Leaf(lst.list@[1])) || (b.nodes@.last().left == BvhChild::Leaf(
            lst.list@[1],
        ) && b.nodes@.last().right == BvhChild::Leaf(lst.list@[0])),
    ensures
        b.bbox_spec(t0, t1) == lst.bbox_spec(t0, t1),
{
    let objs = lst.list@;
    let root = b.nodes@.len() - 1;
    assert(bvh_node_boxes_ok(b.nodes@, root, t0, t1));
    lemma_geometry_bbox_some(objs[0], t0, t1);
    lemma_geometry_bbox_some(objs[1], t0, t1);
    let b0 = objs[0].bbox_spec(t0, t1)->Some_0;
    let b1 = objs[1].bbox_spec(t0, t1)->Some_0;
    crate::bvh::lemma_surrounding_comm(b0, b1);
    assert(list_bbox_from(objs, 2, t0, t1, s_surrounding(b1, b0)) == Some(s_surrounding(b1, b0)));
    assert(list_bbox_from(objs, 1, t0, t1, b0) == Some(s_surrounding(b1, b0)));
    assert(list_bbox_spec(objs, t0, t1) == Some(s_surrounding(b1, b0)));
}

} // verus!
