use weekend_raytracer::fixed::{fx_div, fx_of, FX_MAX, FX_ONE};
use weekend_raytracer::geo::{Hittable, Sphere};
use weekend_raytracer::material::{Dielectric, Lambertian, Material, Metal, schlick};
use weekend_raytracer::vec3::{refract, vec3, Ray};

fn seeded(n: u64) -> rand::rngs::StdRng {
    rand::SeedableRng::seed_from_u64(n)
}

#[test]
fn lambertian_scatters_from_the_hit_point_with_its_albedo() {
    let albedo = vec3(FX_ONE / 4, FX_ONE / 2, FX_ONE);
    let mat = Material::Lambertian(Lambertian { albedo });
    let s = Sphere::new(vec3(0, 0, 0), fx_of(1), mat);
    let r = Ray::new(vec3(0, 0, fx_of(3)), vec3(0, 0, -FX_ONE), fx_of(7));
    let rec = s.hit(&r, 0, FX_MAX).unwrap();
    let mut rng = seeded(1);
    for _ in 0..20 {
        let h = match mat {
            Material::Lambertian(l) => l.scatter(r, rec, &mut rng).unwrap(),
            _ => unreachable!(),
        };
        assert_eq!(h.scattered.origin(), rec.p);
        assert_eq!(h.attenuation, albedo);
        assert_eq!(h.scattered.time(), fx_of(7));
        assert!(h.hit);
    }
}

#[test]
fn metal_without_fuzz_mirrors_exactly() {
    let albedo = vec3(FX_ONE, FX_ONE / 2, FX_ONE / 4);
    let metal = Metal { albedo, fuzz: 0 };
    let s = Sphere::new(vec3(0, 0, 0), fx_of(1), Material::Metal(metal));
    // straight down onto the top of the sphere: the mirror sends it
    // straight back up
    let r = Ray::new(vec3(0, fx_of(3), 0), vec3(0, -FX_ONE, 0), 0);
    let rec = s.hit(&r, 0, FX_MAX).unwrap();
    assert_eq!(rec.normal, vec3(0, FX_ONE, 0));
    let mut rng = seeded(2);
    let h = metal.scatter(r, rec, &mut rng).unwrap();
    assert_eq!(h.scattered.origin(), rec.p);
    assert_eq!(h.scattered.direction(), vec3(0, FX_ONE, 0));
    assert_eq!(h.attenuation, albedo);
}

#[test]
fn metal_absorbs_a_ray_bent_into_the_surface() {
    let metal = Metal { albedo: vec3(FX_ONE, FX_ONE, FX_ONE), fuzz: 0 };
    let s = Sphere::new(vec3(0, 0, 0), fx_of(1), Material::Metal(metal));
    let r = Ray::new(vec3(0, fx_of(3), 0), vec3(0, -FX_ONE, 0), 0);
    let mut rec = s.hit(&r, 0, FX_MAX).unwrap();
    // against a flipped normal the mirrored direction points inward
    rec.normal = vec3(0, -FX_ONE, 0);
    let mut rng = seeded(3);
    assert!(metal.scatter(r, rec, &mut rng).is_none());
}

#[test]
fn dielectric_at_normal_incidence_refracts_or_reflects_but_never_traps() {
    let glass = Dielectric { ref_idx: FX_ONE * 3 / 2 };
    let s = Sphere::new(vec3(0, 0, 0), fx_of(1), Material::Dielectric(glass));
    let r = Ray::new(vec3(0, 0, fx_of(3)), vec3(0, 0, -FX_ONE), 0);
    let rec = s.hit(&r, 0, FX_MAX).unwrap();
    // the discriminant at head-on incidence stays positive: refraction
    // is available, so total internal reflection is never reported
    let ni_over_nt = fx_div(FX_ONE, glass.ref_idx);
    assert!(refract(r.direction(), rec.normal, ni_over_nt).is_some());
    let mut rng = seeded(4);
    for _ in 0..20 {
        let h = glass.scatter(r, rec, &mut rng).unwrap();
        assert_eq!(h.scattered.origin(), rec.p);
        assert_eq!(h.attenuation, vec3(FX_ONE, FX_ONE, FX_ONE));
        // head-on, both choices run along the axis
        assert_eq!(h.scattered.direction().x(), 0);
        assert_eq!(h.scattered.direction().y(), 0);
    }
}

#[test]
fn schlick_reflectance_has_exact_corner_values() {
    let glass = FX_ONE * 3 / 2;
    // at grazing incidence (cosine zero) everything reflects
    assert_eq!(schlick(0, glass), FX_ONE);
    // at head-on incidence only r0 = ((1 - n)/(1 + n))^2 is left;
    // for n = 1.5 that is 0.04, truncated in 16.16 fixed point
    assert_eq!(schlick(FX_ONE, glass), 2621);
}
