use weekend_raytracer::fixed::{fx_of, FX_ONE};
use weekend_raytracer::geo::{Geometry, Hittable, HittableList, Sphere};
use weekend_raytracer::material::{Lambertian, Material};
use weekend_raytracer::render::{color, FX_HALF, HIT_EPS, MAX_DEPTH, SKY_GREEN};
use weekend_raytracer::vec3::{vec3, Ray, Vec3};
use weekend_raytracer::fixed::FX_MAX;

fn seeded(n: u64) -> rand::rngs::StdRng {
    rand::SeedableRng::seed_from_u64(n)
}

fn white_diffuse() -> Material {
    Material::Lambertian(Lambertian { albedo: vec3(FX_ONE, FX_ONE, FX_ONE) })
}

#[test]
fn a_missing_ray_earns_exactly_the_sky_gradient() {
    let empty = HittableList { list: vec![] };
    let mut rng = seeded(5);
    // straight up: the gradient's key is one, pure sky blue
    let up = Ray::new(vec3(0, 0, 0), vec3(0, FX_ONE, 0), 0);
    assert_eq!(color(&up, &empty, 0, &mut rng), vec3(FX_HALF, SKY_GREEN, FX_ONE));
    // straight down: the key is zero, pure white
    let down = Ray::new(vec3(0, 0, 0), vec3(0, -FX_ONE, 0), 0);
    assert_eq!(color(&down, &empty, 0, &mut rng), vec3(FX_ONE, FX_ONE, FX_ONE));
    // level: the key is one half, the midpoint of the gradient
    let level = Ray::new(vec3(0, 0, 0), vec3(FX_ONE, 0, 0), 0);
    let mid = color(&level, &empty, 0, &mut rng);
    assert_eq!(
        mid,
        vec3(
            FX_HALF + FX_HALF / 2,
            FX_HALF + SKY_GREEN / 2,
            FX_HALF + FX_HALF,
        )
    );
}

#[test]
fn the_integrator_stops_at_the_depth_bound() {
    let s = Geometry::Sphere(Sphere::new(vec3(0, 0, fx_of(-2)), fx_of(1), white_diffuse()));
    let world = HittableList { list: vec![s] };
    let toward = Ray::new(vec3(0, 0, 0), vec3(0, 0, -FX_ONE), 0);
    let mut rng = seeded(6);
    assert_eq!(color(&toward, &world, MAX_DEPTH, &mut rng), vec3(0, 0, 0));
    assert_eq!(color(&toward, &world, 100, &mut rng), vec3(0, 0, 0));
    // a pathological always-scattering scene still terminates from the top
    let c = color(&toward, &world, 0, &mut rng);
    assert!(c.x() >= 0 && c.y() >= 0 && c.z() >= 0);
}

#[test]
fn one_bounce_off_a_diffuse_sphere_scales_the_sky() {
    // a unit sphere straight ahead with a white diffuse coat, lit only
    // by the sky gradient
    let s = Sphere::new(vec3(0, 0, fx_of(-1)), fx_of(1), white_diffuse());
    let world = HittableList { list: vec![Geometry::Sphere(s)] };
    let down_axis = Ray::new(vec3(0, 0, 0), vec3(0, 0, -FX_ONE), 0);

    // the first bounce starts exactly at the hit point
    let rec = world.hit(&down_axis, HIT_EPS, FX_MAX).unwrap();
    assert_eq!(rec.t, fx_of(2));
    assert_eq!(rec.p, vec3(0, 0, fx_of(-2)));
    let mut probe = seeded(7);
    let h = match s.material {
        Material::Lambertian(l) => l.scatter(down_axis, rec, &mut probe).unwrap(),
        _ => unreachable!(),
    };
    assert_eq!(h.scattered.origin(), rec.p);
    assert_eq!(h.attenuation, vec3(FX_ONE, FX_ONE, FX_ONE));

    // the full integrator result is the albedo times the recursive
    // call on that same scattered ray: replay the random stream
    let mut rng = seeded(7);
    let got = color(&down_axis, &world, 0, &mut rng);
    let mut replay = seeded(7);
    let rec2 = world.hit(&down_axis, HIT_EPS, FX_MAX).unwrap();
    let h2 = match s.material {
        Material::Lambertian(l) => l.scatter(down_axis, rec2, &mut replay).unwrap(),
        _ => unreachable!(),
    };
    let expected = h2.attenuation.mul(color(&h2.scattered, &world, 1, &mut replay));
    assert_eq!(got, expected);
}

#[test]
fn random_sphere_points_feed_the_bounce() {
    let mut rng = seeded(8);
    let p = Vec3::random_in_unit_sphere(&mut rng);
    assert!(p.squared_length() < FX_ONE);
}
