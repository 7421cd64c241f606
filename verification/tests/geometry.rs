use weekend_raytracer::bvh::{surrounding_box, AABB};
use weekend_raytracer::fixed::{fx_of, FX_MAX, FX_ONE};
use weekend_raytracer::geo::{
    box_compare, box_x_compare, Axis, Geometry, HitRecord, Hittable, HittableList, MovingSphere,
    Sphere,
};
use weekend_raytracer::material::{Lambertian, Material};
use weekend_raytracer::vec3::{vec3, Ray};

fn gray() -> Material {
    Material::Lambertian(Lambertian { albedo: vec3(FX_ONE / 2, FX_ONE / 2, FX_ONE / 2) })
}

#[test]
fn slab_test_accepts_a_crossing_ray_and_rejects_a_missing_one() {
    let b = AABB { min: vec3(fx_of(-1), fx_of(-1), fx_of(-1)), max: vec3(fx_of(1), fx_of(1), fx_of(1)) };
    let toward = Ray::new(vec3(0, 0, fx_of(5)), vec3(0, 0, -FX_ONE), 0);
    assert!(b.hit(&toward, 1, FX_MAX));
    let away = Ray::new(vec3(0, 0, fx_of(5)), vec3(0, 0, FX_ONE), 0);
    assert!(!b.hit(&away, 1, FX_MAX));
    let sideways = Ray::new(vec3(fx_of(5), 0, fx_of(5)), vec3(0, 0, -FX_ONE), 0);
    assert!(!b.hit(&sideways, 1, FX_MAX));
    // an empty parameter window rejects everything
    assert!(!b.hit(&toward, fx_of(3), fx_of(3)));
    assert!(!b.hit(&toward, fx_of(4), fx_of(2)));
}

#[test]
fn surrounding_box_contains_both_arguments() {
    let a = AABB { min: vec3(fx_of(-2), 0, fx_of(1)), max: vec3(fx_of(-1), fx_of(2), fx_of(3)) };
    let b = AABB { min: vec3(fx_of(1), fx_of(-1), 0), max: vec3(fx_of(2), fx_of(1), fx_of(5)) };
    let u = surrounding_box(&a, &b);
    assert_eq!(u.min(), vec3(fx_of(-2), fx_of(-1), 0));
    assert_eq!(u.max(), vec3(fx_of(2), fx_of(2), fx_of(5)));
    for (inner, outer) in [(a.min(), u.min()), (b.min(), u.min())] {
        assert!(outer.x() <= inner.x() && outer.y() <= inner.y() && outer.z() <= inner.z());
    }
    for (inner, outer) in [(a.max(), u.max()), (b.max(), u.max())] {
        assert!(outer.x() >= inner.x() && outer.y() >= inner.y() && outer.z() >= inner.z());
    }
}

#[test]
fn head_on_sphere_hit_is_symmetric_about_the_center() {
    let s = Sphere::new(vec3(0, 0, 0), fx_of(1), gray());
    let r = Ray::new(vec3(0, 0, fx_of(3)), vec3(0, 0, -FX_ONE), 0);
    let first = s.hit(&r, 0, FX_MAX).unwrap();
    assert_eq!(first.t, fx_of(2));
    assert_eq!(first.p, vec3(0, 0, fx_of(1)));
    assert_eq!(first.normal, vec3(0, 0, FX_ONE));
    // continuing past the first crossing leaves the sphere one radius
    // beyond the center
    let second = s.hit(&r, first.t, FX_MAX).unwrap();
    assert_eq!(second.t, fx_of(4));
    assert_eq!(second.p, vec3(0, 0, fx_of(-1)));
    assert_eq!(second.normal, vec3(0, 0, -FX_ONE));
}

#[test]
fn hits_outside_the_open_window_are_discarded() {
    let s = Sphere::new(vec3(0, 0, 0), fx_of(1), gray());
    let r = Ray::new(vec3(0, 0, fx_of(3)), vec3(0, 0, -FX_ONE), 0);
    assert!(s.hit(&r, 0, fx_of(2)).is_none());
    assert!(s.hit(&r, fx_of(4), FX_MAX).is_none());
    let miss = Ray::new(vec3(fx_of(3), 0, fx_of(3)), vec3(0, 0, -FX_ONE), 0);
    assert!(miss.direction().z() < 0 && s.hit(&miss, 0, FX_MAX).is_none());
}

#[test]
fn a_hollow_sphere_faces_inward() {
    let s = Sphere::new(vec3(0, 0, 0), fx_of(-1), gray());
    let r = Ray::new(vec3(0, 0, fx_of(3)), vec3(0, 0, -FX_ONE), 0);
    let rec = s.hit(&r, 0, FX_MAX).unwrap();
    assert_eq!(rec.t, fx_of(2));
    assert_eq!(rec.normal, vec3(0, 0, -FX_ONE));
}

#[test]
fn a_moving_sphere_is_sampled_at_the_rays_time() {
    let m = MovingSphere::new(
        vec3(0, 0, 0),
        vec3(fx_of(4), 0, 0),
        0,
        fx_of(1),
        fx_of(1),
        gray(),
    );
    assert_eq!(m.center(0), vec3(0, 0, 0));
    assert_eq!(m.center(FX_ONE / 2), vec3(fx_of(2), 0, 0));
    assert_eq!(m.center(fx_of(1)), vec3(fx_of(4), 0, 0));
    // at time one half the sphere sits at x = 2 and the ray down that
    // column hits it; at time zero it does not
    let over_two = Ray::new(vec3(fx_of(2), 0, fx_of(5)), vec3(0, 0, -FX_ONE), FX_ONE / 2);
    let rec = m.hit(&over_two, 0, FX_MAX).unwrap();
    assert_eq!(rec.t, fx_of(4));
    let at_zero = Ray::new(vec3(fx_of(2), 0, fx_of(5)), vec3(0, 0, -FX_ONE), 0);
    assert!(m.hit(&at_zero, 0, FX_MAX).is_none());
    let b = m.bounding_box(0, fx_of(1)).unwrap();
    assert_eq!(b.min(), vec3(fx_of(-1), fx_of(-1), fx_of(-1)));
    assert_eq!(b.max(), vec3(fx_of(5), fx_of(1), fx_of(1)));
}

#[test]
fn a_list_returns_the_closest_hit() {
    let near = Geometry::Sphere(Sphere::new(vec3(0, 0, fx_of(2)), fx_of(1), gray()));
    let far = Geometry::Sphere(Sphere::new(vec3(0, 0, fx_of(-4)), fx_of(1), gray()));
    let world = HittableList { list: vec![far, near] };
    let r = Ray::new(vec3(0, 0, fx_of(8)), vec3(0, 0, -FX_ONE), 0);
    let rec = world.hit(&r, 0, FX_MAX).unwrap();
    assert_eq!(rec.t, fx_of(5));
    let empty = HittableList { list: vec![] };
    assert!(empty.hit(&r, 0, FX_MAX).is_none());
    assert!(empty.bounding_box(0, 0).is_none());
    let b = world.bounding_box(0, 0).unwrap();
    assert_eq!(b.min(), vec3(fx_of(-1), fx_of(-1), fx_of(-5)));
    assert_eq!(b.max(), vec3(fx_of(1), fx_of(1), fx_of(3)));
}

#[test]
fn comparators_order_by_the_box_minimum() {
    let left = Geometry::Sphere(Sphere::new(vec3(fx_of(-5), 0, 0), fx_of(1), gray()));
    let right = Geometry::Sphere(Sphere::new(vec3(fx_of(5), 0, 0), fx_of(1), gray()));
    assert_eq!(box_x_compare(&left, &right), std::cmp::Ordering::Less);
    assert_eq!(box_x_compare(&right, &left), std::cmp::Ordering::Greater);
    // equal keys count as greater, never equal
    assert_eq!(box_x_compare(&left, &left), std::cmp::Ordering::Greater);
    assert_eq!(box_compare(&left, &right, Axis::Y), std::cmp::Ordering::Greater);
    assert_eq!(box_compare(&left, &right, Axis::Z), std::cmp::Ordering::Greater);
}

#[test]
fn hit_records_carry_the_surfaces_material() {
    let s = Sphere::new(vec3(0, 0, 0), fx_of(1), gray());
    let r = Ray::new(vec3(0, 0, fx_of(3)), vec3(0, 0, -FX_ONE), 0);
    let rec: HitRecord = s.hit(&r, 0, FX_MAX).unwrap();
    assert_eq!(rec.material, gray());
}
