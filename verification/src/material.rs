//! The material scattering model.
//!
//! A material consumes the incoming ray and the hit record and yields
//! either nothing (the ray is absorbed) or a scattered ray with an
//! attenuation color.  The random draws a scattering decision uses are
//! existentially quantified in the contracts: whatever the generator
//! returned, the result is one of the stated outcomes.
use crate::fixed::{
    abs_i, fx_add, fx_div, fx_mul, fx_neg, fx_sqrt, fx_sub, s_add, s_div, s_mul, s_neg, s_sqrt,
    s_sub, FX_ONE,
};
use crate::geo::HitRecord;
use crate::rng::rand_u16;
use crate::vec3::{
    dot, reflect, s_dot, s_len, s_sq_len, sv_add, sv_neg, sv_reflect, sv_refract, sv_scale,
    sv_sub, sv_unit, refract, Ray, Vec3,
};
use vstd::prelude::*;

verus! {

/// The fifth power of a scalar, multiplied out left to right.
pub open spec fn s_pow5(x: int) -> int {
    s_mul(s_mul(s_mul(s_mul(x, x), x), x), x)
}

/// Schlick's reflectance estimate:
/// `r0 + (1 - r0) * (1 - cosine)^5` with `r0 = ((1 - n) / (1 + n))^2`.
pub open spec fn schlick_spec(cosine: int, ref_idx: int) -> int {
    let r0 = s_div(s_sub(FX_ONE as int, ref_idx), s_add(FX_ONE as int, ref_idx));
    let r0sq = s_mul(r0, r0);
    s_add(r0sq, s_mul(s_sub(FX_ONE as int, r0sq), s_pow5(s_sub(FX_ONE as int, cosine))))
}

pub fn schlick(cosine: i64, ref_idx: i64) -> (r: i64)
    ensures
        r as int == schlick_spec(cosine as int, ref_idx as int),
{
    let r0 = fx_div(fx_sub(FX_ONE, ref_idx), fx_add(FX_ONE, ref_idx));
    let r0 = fx_mul(r0, r0);
    let base = fx_sub(FX_ONE, cosine);
    let p5 = fx_mul(fx_mul(fx_mul(fx_mul(base, base), base), base), base);
    fx_add(r0, fx_mul(fx_sub(FX_ONE, r0), p5))
}

#[derive(Clone, Copy, Debug, PartialEq, Eq, Structural)]
pub struct MaterialReflection {
    pub scattered: Ray,
    pub attenuation: Vec3,
    pub hit: bool,
}

#[derive(Clone, Copy, Debug, PartialEq, Eq, Structural)]
pub struct Lambertian {
    pub albedo: Vec3,
}

#[derive(Clone, Copy, Debug, PartialEq, Eq, Structural)]
pub struct Metal {
    pub albedo: Vec3,
    pub fuzz: i64,
}

#[derive(Clone, Copy, Debug, PartialEq, Eq, Structural)]
pub struct Dielectric {
    pub ref_idx: i64,
}

#[derive(Clone, Copy, Debug, PartialEq, Eq, Structural)]
pub enum Material {
    Lambertian(Lambertian),
    Metal(Metal),
    Dielectric(Dielectric),
}

/// The diffuse outcome for the unit-sphere sample `q`: a ray from the
/// hit point toward `p + normal + q`, attenuated by the albedo.
pub open spec fn lambertian_outcome(albedo: Vec3, r_in: Ray, rec: HitRecord, q: Vec3) -> Option<
    MaterialReflection,
> {
    let target = sv_add(sv_add(rec.p, rec.normal), q);
    Some(
        MaterialReflection {
            scattered: Ray { a: rec.p, b: sv_sub(target, rec.p), time: r_in.time },
            attenuation: albedo,
            hit: true,
        },
    )
}

/// A diffuse scatter is `lambertian_outcome` for some point of the unit
/// sphere.
pub open spec fn lambertian_scatter_ok(
    albedo: Vec3,
    r_in: Ray,
    rec: HitRecord,
    res: Option<MaterialReflection>,
) -> bool {
    exists|q: Vec3|
        s_sq_len(q) < FX_ONE as int && res == lambertian_outcome(albedo, r_in, rec, q)
}

/// The metallic outcome for the unit-sphere sample `q`: the mirrored
/// direction perturbed by `fuzz * q`, absorbed when it would point into
/// the surface.
pub open spec fn metal_outcome(
    albedo: Vec3,
    fuzz: int,
    r_in: Ray,
    rec: HitRecord,
    q: Vec3,
) -> Option<MaterialReflection> {
    let reflected = sv_reflect(sv_unit(r_in.b), rec.normal);
    let dir = sv_add(reflected, sv_scale(q, fuzz));
    if s_dot(dir, rec.normal) > 0 {
        Some(
            MaterialReflection {
                scattered: Ray { a: rec.p, b: dir, time: r_in.time },
                attenuation: albedo,
                hit: true,
            },
        )
    } else {
        None
    }
}

/// A metallic scatter is `metal_outcome` for some point of the unit
/// sphere.
pub open spec fn metal_scatter_ok(
    albedo: Vec3,
    fuzz: int,
    r_in: Ray,
    rec: HitRecord,
    res: Option<MaterialReflection>,
) -> bool {
    exists|q: Vec3| s_sq_len(q) < FX_ONE as int && res == metal_outcome(albedo, fuzz, r_in, rec, q)
}

/// The outward normal, refraction ratio, and incidence cosine a
/// dielectric uses, fixed by the side the ray comes from.
pub open spec fn dielectric_setup(ref_idx: int, r_in: Ray, rec: HitRecord) -> (Vec3, int, int) {
    let rdotn = s_dot(r_in.b, rec.normal);
    if rdotn > 0 {
        let cos0 = s_div(rdotn, s_len(r_in.b));
        let cosine = s_sqrt(
            s_sub(
                FX_ONE as int,
                s_mul(s_mul(ref_idx, ref_idx), s_sub(FX_ONE as int, s_mul(cos0, cos0))),
            ),
        );
        (sv_neg(rec.normal), ref_idx, cosine)
    } else {
        let cosine = s_div(s_neg(rdotn), s_len(r_in.b));
        (rec.normal, s_div(FX_ONE as int, ref_idx), cosine)
    }
}

/// A dielectric reports total internal reflection when refraction
/// through its outward normal has no value.
pub open spec fn dielectric_tir(ref_idx: int, r_in: Ray, rec: HitRecord) -> bool {
    let setup = dielectric_setup(ref_idx, r_in, rec);
    sv_refract(r_in.b, setup.0, setup.1) is None
}

/// The direction a dielectric scatters into, once the uniform draw `x`
/// is fixed: reflection when `x` falls under the Schlick reflectance or
/// under total internal reflection, refraction otherwise.
pub open spec fn dielectric_dir(ref_idx: int, r_in: Ray, rec: HitRecord, x: int) -> Vec3 {
    let setup = dielectric_setup(ref_idx, r_in, rec);
    match sv_refract(r_in.b, setup.0, setup.1) {
        Some(refracted) => if x < schlick_spec(setup.2, ref_idx) {
            sv_reflect(r_in.b, rec.normal)
        } else {
            refracted
        },
        None => sv_reflect(r_in.b, rec.normal),
    }
}

/// A dielectric always scatters from the hit point with colorless
/// attenuation, into `dielectric_dir` for some uniform draw.
pub open spec fn dielectric_scatter_ok(
    ref_idx: int,
    r_in: Ray,
    rec: HitRecord,
    res: Option<MaterialReflection>,
) -> bool {
    exists|x: int|
        0 <= x < FX_ONE as int && res == Some(
            MaterialReflection {
                scattered: Ray { a: rec.p, b: dielectric_dir(ref_idx, r_in, rec, x), time: r_in.time },
                attenuation: Vec3 { x: FX_ONE, y: FX_ONE, z: FX_ONE },
                hit: true,
            },
        )
}

/// What a scatter may return, variant by variant.
pub open spec fn material_scatter_ok(
    m: Material,
    r_in: Ray,
    rec: HitRecord,
    res: Option<MaterialReflection>,
) -> bool {
    match m {
        Material::Lambertian(l) => lambertian_scatter_ok(l.albedo, r_in, rec, res),
        Material::Metal(mt) => metal_scatter_ok(mt.albedo, mt.fuzz as int, r_in, rec, res),
        Material::Dielectric(d) => dielectric_scatter_ok(d.ref_idx as int, r_in, rec, res),
    }
}

/// Whatever a material returns, a scattered ray starts at the hit point
/// and carries the incoming ray's time.
pub proof fn lemma_scatter_origin(
    m: Material,
    r_in: Ray,
    rec: HitRecord,
    res: Option<MaterialReflection>,
)
    requires
        material_scatter_ok(m, r_in, rec, res),
        res is Some,
    ensures
        res->Some_0.scattered.a == rec.p,
        res->Some_0.scattered.time == r_in.time,
{
}

impl Lambertian {
    /// Diffuse bounce: aim at `p + normal + (random point of the unit
    /// sphere)`.  Always scatters; the ray starts at the hit point and
    /// the attenuation is the configured albedo.
    pub fn scatter(&self, r_in: Ray, rec: HitRecord, rng: &mut rand::rngs::StdRng) -> (res: Option<
        MaterialReflection,
    >)
        ensures
            lambertian_scatter_ok(self.albedo, r_in, rec, res),
            res is Some,
            res->Some_0.scattered.a == rec.p,
            res->Some_0.attenuation == self.albedo,
    {
        let q = Vec3::random_in_unit_sphere(rng);
        let target = rec.p.add(rec.normal).add(q);
        let scattered = Ray::new(rec.p, target.sub(rec.p), r_in.time());
        let res = Some(MaterialReflection { scattered, attenuation: self.albedo, hit: true });
        proof {
            assert(s_sq_len(q) < FX_ONE as int && res == lambertian_outcome(
                self.albedo,
                r_in,
                rec,
                q,
            ));
        }
        res
    }
}

impl Metal {
    /// Specular bounce: mirror the unit incoming direction, perturb it
    /// by `fuzz` times a random point of the unit sphere, and absorb
    /// the ray when the result points into the surface.  With no fuzz
    /// the outcome is the exact mirror reflection.
    pub fn scatter(&self, r_in: Ray, rec: HitRecord, rng: &mut rand::rngs::StdRng) -> (res: Option<
        MaterialReflection,
    >)
        ensures
            metal_scatter_ok(self.albedo, self.fuzz as int, r_in, rec, res),
            res is Some ==> res->Some_0.scattered.a == rec.p && res->Some_0.attenuation
                == self.albedo,
            self.fuzz == 0 ==> res == metal_outcome(
                self.albedo,
                0,
                r_in,
                rec,
                Vec3 { x: 0, y: 0, z: 0 },
            ),
    {
        let q = Vec3::random_in_unit_sphere(rng);
        let reflected = reflect(r_in.direction().unit_vector(), rec.normal);
        let scattered = Ray::new(rec.p, reflected.add(q.scale(self.fuzz)), r_in.time());
        let res = if dot(scattered.direction(), rec.normal) > 0 {
            Some(MaterialReflection { scattered, attenuation: self.albedo, hit: true })
        } else {
            None
        };
        proof {
            assert(s_sq_len(q) < FX_ONE as int && res == metal_outcome(
                self.albedo,
                self.fuzz as int,
                r_in,
                rec,
                q,
            ));
            if self.fuzz == 0 {
                assert(sv_scale(q, 0) == (Vec3 { x: 0, y: 0, z: 0 }));
                assert(sv_add(reflected, sv_scale(q, 0)) == reflected);
            }
        }
        res
    }
}

impl Dielectric {
    /// Refractive bounce: choose between mirror reflection and Snell
    /// refraction with Schlick's reflectance as the coin's bias; under
    /// total internal reflection only the mirror is available.  Always
    /// scatters, from the hit point, with colorless attenuation.
    pub fn scatter(&self, r_in: Ray, rec: HitRecord, rng: &mut rand::rngs::StdRng) -> (res: Option<
        MaterialReflection,
    >)
        ensures
            dielectric_scatter_ok(self.ref_idx as int, r_in, rec, res),
            res is Some,
    {
        let reflected = reflect(r_in.direction(), rec.normal);
        let attenuation = Vec3::new([FX_ONE, FX_ONE, FX_ONE]);
        let rdotn = dot(r_in.direction(), rec.normal);

        let (outward_normal, ni_over_nt, cosine) = if rdotn > 0 {
            let cos0 = fx_div(rdotn, r_in.direction().length());
            let cos = fx_sqrt(
                fx_sub(
                    FX_ONE,
                    fx_mul(fx_mul(self.ref_idx, self.ref_idx), fx_sub(FX_ONE, fx_mul(cos0, cos0))),
                ),
            );
            (rec.normal.neg(), self.ref_idx, cos)
        } else {
            let cos = fx_div(fx_neg(rdotn), r_in.direction().length());
            (rec.normal, fx_div(FX_ONE, self.ref_idx), cos)
        };

        let (reflect_prob, refracted) = match refract(r_in.direction(), outward_normal, ni_over_nt) {
            Some(refracted_val) => (schlick(cosine, self.ref_idx), refracted_val),
            None => (FX_ONE, Vec3::random_in_unit_sphere(rng)),
        };

        let draw = rand_u16(rng);
        let x: i64 = draw as i64;
        let scattered = if x < reflect_prob {
            Ray::new(rec.p, reflected, r_in.time())
        } else {
            Ray::new(rec.p, refracted, r_in.time())
        };
        let res = Some(MaterialReflection { scattered, attenuation, hit: true });
        proof {
            assert(0 <= x && x < FX_ONE);
            assert(scattered.b == dielectric_dir(self.ref_idx as int, r_in, rec, x as int));
            assert(res == Some(
                MaterialReflection {
                    scattered: Ray {
                        a: rec.p,
                        b: dielectric_dir(self.ref_idx as int, r_in, rec, x as int),
                        time: r_in.time,
                    },
                    attenuation: Vec3 { x: FX_ONE, y: FX_ONE, z: FX_ONE },
                    hit: true,
                },
            ));
        }
        res
    }
}

impl Material {
    /// Dispatch to the variant's scattering rule.
    pub fn scatter(&self, r_in: Ray, rec: HitRecord, rng: &mut rand::rngs::StdRng) -> (res: Option<
        MaterialReflection,
    >)
        ensures
            material_scatter_ok(*self, r_in, rec, res),
    {
        match self {
            Material::Lambertian(l) => l.scatter(r_in, rec, rng),
            Material::Metal(m) => m.scatter(r_in, rec, rng),
            Material::Dielectric(d) => d.scatter(r_in, rec, rng),
        }
    }
}

/// Head-on refraction never reports total internal reflection: when the
/// unit incoming direction is (anti)parallel to the outward normal the
/// refraction discriminant is exactly one.
pub proof fn lemma_refract_normal_incidence(v: Vec3, n: Vec3, ni_over_nt: int)
    requires
        s_dot(sv_unit(v), n) == FX_ONE as int || s_dot(sv_unit(v), n) == -(FX_ONE as int),
    ensures
        sv_refract(v, n, ni_over_nt) is Some,
{
    let dt = s_dot(sv_unit(v), n);
    assert(dt * dt == 0x1_0000_0000) by (nonlinear_arith)
        requires
            dt == FX_ONE as int || dt == -(FX_ONE as int),
    ;
    assert((0x1_0000_0000int) / (0x10000int) == 0x10000) by (nonlinear_arith);
    assert(s_mul(dt, dt) == FX_ONE as int);
    assert(s_sub(FX_ONE as int, s_mul(dt, dt)) == 0);
    assert((0int) / (0x10000int) == 0) by (nonlinear_arith);
    assert(abs_i(s_mul(ni_over_nt, ni_over_nt) * 0) == 0);
    assert(s_mul(s_mul(ni_over_nt, ni_over_nt), 0) == 0);
    assert(s_sub(FX_ONE as int, 0) == FX_ONE as int);
}

/// A dielectric hit head-on from outside never reports total internal
/// reflection, whatever its index of refraction.
pub proof fn lemma_dielectric_normal_incidence(d: Dielectric, r_in: Ray, rec: HitRecord)
    requires
        s_dot(r_in.b, rec.normal) <= 0,
        s_dot(sv_unit(r_in.b), rec.normal) == -(FX_ONE as int),
    ensures
        !dielectric_tir(d.ref_idx as int, r_in, rec),
{
    let setup = dielectric_setup(d.ref_idx as int, r_in, rec);
    assert(setup.0 == rec.normal);
    lemma_refract_normal_incidence(r_in.b, rec.normal, setup.1);
}

} // verus!
