use weekend_raytracer::fixed::{fx_of, FX_ONE};
use weekend_raytracer::vec3::{dot, reflect, refract, vec3, Ray, Vec3};

#[test]
fn componentwise_arithmetic() {
    let a = vec3(fx_of(1), fx_of(2), fx_of(3));
    let b = vec3(fx_of(4), fx_of(5), fx_of(6));
    assert_eq!(a.add(b), vec3(fx_of(5), fx_of(7), fx_of(9)));
    assert_eq!(b.sub(a), vec3(fx_of(3), fx_of(3), fx_of(3)));
    assert_eq!(a.mul(b), vec3(fx_of(4), fx_of(10), fx_of(18)));
    assert_eq!(a.scale(fx_of(2)), vec3(fx_of(2), fx_of(4), fx_of(6)));
    assert_eq!(a.div_s(fx_of(2)), vec3(FX_ONE / 2, fx_of(1), fx_of(1) + FX_ONE / 2));
    assert_eq!(a.neg(), vec3(fx_of(-1), fx_of(-2), fx_of(-3)));
    assert_eq!(a.x(), fx_of(1));
    assert_eq!(a.y(), fx_of(2));
    assert_eq!(a.z(), fx_of(3));
}

#[test]
fn dot_cross_and_length() {
    let a = vec3(fx_of(1), fx_of(2), fx_of(3));
    let b = vec3(fx_of(4), fx_of(5), fx_of(6));
    assert_eq!(a.dot(b), fx_of(32));
    assert_eq!(dot(a, b), fx_of(32));
    assert_eq!(a.cross(b), vec3(fx_of(-3), fx_of(6), fx_of(-3)));
    let c = vec3(fx_of(3), fx_of(4), 0);
    assert_eq!(c.squared_length(), fx_of(25));
    assert_eq!(c.length(), fx_of(5));
    assert_eq!(c.unit_vector(), vec3(FX_ONE * 3 / 5, FX_ONE * 4 / 5, 0));
}

#[test]
fn closures_apply_per_element() {
    let a = vec3(fx_of(1), fx_of(2), fx_of(3));
    let b = vec3(fx_of(4), fx_of(5), fx_of(6));
    let summed = a.apply_per_element(b, |x: i64, y: i64| x / 2 + y / 2);
    assert_eq!(summed, vec3(fx_of(5) / 2, fx_of(7) / 2, fx_of(9) / 2));
    let halved = a.map(|x: i64| x / 2);
    assert_eq!(halved, vec3(FX_ONE / 2, fx_of(1), fx_of(3) / 2));
}

#[test]
fn mirror_reflection_is_exact() {
    let incoming = vec3(0, -FX_ONE, 0);
    let normal = vec3(0, FX_ONE, 0);
    assert_eq!(reflect(incoming, normal), vec3(0, FX_ONE, 0));
    // a grazing direction keeps its tangential part
    let slanted = vec3(FX_ONE, -FX_ONE, 0);
    assert_eq!(reflect(slanted, normal), vec3(FX_ONE, FX_ONE, 0));
}

#[test]
fn refraction_with_matched_media_goes_straight_through() {
    let incoming = vec3(0, 0, -FX_ONE);
    let normal = vec3(0, 0, FX_ONE);
    assert_eq!(refract(incoming, normal, FX_ONE), Some(vec3(0, 0, -FX_ONE)));
}

#[test]
fn rays_evaluate_points_along_themselves() {
    let r = Ray::new(vec3(fx_of(1), 0, 0), vec3(0, fx_of(2), 0), fx_of(3));
    assert_eq!(r.origin(), vec3(fx_of(1), 0, 0));
    assert_eq!(r.direction(), vec3(0, fx_of(2), 0));
    assert_eq!(r.time(), fx_of(3));
    assert_eq!(r.point_at_parameter(fx_of(2)), vec3(fx_of(1), fx_of(4), 0));
}

#[test]
fn random_points_stay_inside_the_unit_sphere() {
    let mut rng: rand::rngs::StdRng = rand::SeedableRng::seed_from_u64(11);
    for _ in 0..50 {
        let p = Vec3::random_in_unit_sphere(&mut rng);
        assert!(p.squared_length() < FX_ONE);
        let q = Vec3::random_in_unit_disk(&mut rng);
        assert!(q.squared_length() < FX_ONE);
        assert_eq!(q.z(), 0);
    }
}
