//! The recursive light-transport integrator.
//!
//! A ray is cast against the scene; on a miss the sky gradient, the
//! only light source, is returned at once.  On a hit the surface's
//! material is asked to scatter; the integrator recurses on the
//! scattered ray and multiplies the result by the attenuation, stopping
//! at the fixed depth bound with black as the energy-conservation
//! safety valve.
use crate::fixed::{fx_add, fx_mul, fx_sub, s_add, s_mul, s_sub, FX_MAX, FX_ONE};
use crate::geo::Hittable;
use crate::vec3::{sv_add, sv_mul, sv_scale, sv_unit, vec3, Ray, Vec3};
use vstd::prelude::*;

verus! {

/// The parameter floor for scene queries: about a thousandth, so a
/// scattered ray cannot re-intersect the surface it just left
/// ("shadow acne").
pub const HIT_EPS: i64 = 66;

/// The recursion bound of the integrator.
pub const MAX_DEPTH: i8 = 50;

/// One half.
pub const FX_HALF: i64 = 0x8000;

/// The sky color's green channel: seven tenths, rounded down.
pub const SKY_GREEN: i64 = 45875;

/// The background: a vertical gradient from white to sky blue, keyed by
/// the unit direction's height.
pub open spec fn sky_spec(r: Ray) -> Vec3 {
    let unit_direction = sv_unit(r.b);
    let t = s_mul(FX_HALF as int, s_add(unit_direction.y as int, FX_ONE as int));
    sv_add(
        sv_scale(Vec3 { x: FX_ONE, y: FX_ONE, z: FX_ONE }, s_sub(FX_ONE as int, t)),
        sv_scale(Vec3 { x: FX_HALF, y: SKY_GREEN, z: FX_ONE }, t),
    )
}

/// An absorbed ray contributes no light.
pub open spec fn black() -> Vec3 {
    Vec3 { x: 0, y: 0, z: 0 }
}

/// The radiance carried back along a ray.  A ray that hits nothing
/// earns exactly the sky gradient, whatever the material draws would
/// have been; past the depth bound a hit earns black.
pub fn color<T: Hittable>(r: &Ray, world: &T, depth: i8, rng: &mut rand::rngs::StdRng) -> (c: Vec3)
    requires
        world.wf(),
    ensures
        world.hit_spec(*r, HIT_EPS as int, FX_MAX as int) is None ==> c == sky_spec(*r),
        world.hit_spec(*r, HIT_EPS as int, FX_MAX as int) is Some && depth >= MAX_DEPTH ==> c
            == black(),
    decreases (if depth < MAX_DEPTH {
        MAX_DEPTH - depth
    } else {
        0
    }),
{
    match world.hit(r, HIT_EPS, FX_MAX) {
        Some(rec) => {
            if depth < MAX_DEPTH {
                match rec.material.scatter(*r, rec, rng) {
                    Some(h) => h.attenuation.mul(color(&h.scattered, world, depth + 1, rng)),
                    None => vec3(0, 0, 0),
                }
            } else {
                vec3(0, 0, 0)
            }
        },
        None => {
            let unit_direction = r.direction().unit_vector();
            let t = fx_mul(FX_HALF, fx_add(unit_direction.y(), FX_ONE));
            vec3(FX_ONE, FX_ONE, FX_ONE).scale(fx_sub(FX_ONE, t)).add(
                vec3(FX_HALF, SKY_GREEN, FX_ONE).scale(t),
            )
        },
    }
}

} // verus!
