use weekend_raytracer::fixed::{fx_of, FX_MAX, FX_ONE};
use weekend_raytracer::geo::{BVHNode, Geometry, Hittable, HittableList, Sphere};
use weekend_raytracer::material::{Lambertian, Material};
use weekend_raytracer::render::HIT_EPS;
use weekend_raytracer::vec3::{vec3, Ray, Vec3};

fn seeded(n: u64) -> rand::rngs::StdRng {
    rand::SeedableRng::seed_from_u64(n)
}

#[test]
fn bvh_node_with_one_item() {
    let v: Vec<Geometry> = vec![Geometry::Sphere(Sphere {
        center: vec3(0, 0, 0),
        radius: fx_of(1),
        material: Material::Lambertian(Lambertian {
            albedo: vec3(FX_ONE * 4 / 5, FX_ONE * 4 / 5, 0),
        }),
    })];

    let mut rng = seeded(9);
    let n = BVHNode::new(v, 0, fx_of(1), &mut rng);
    let b = n.bounding_box(0, fx_of(1)).unwrap();
    println!("{:?}", b);

    assert_eq!(b.max(), Vec3::new([fx_of(1), fx_of(1), fx_of(1)]));
}

#[test]
fn a_two_sphere_tree_answers_like_the_flat_list() {
    let mat = Material::Lambertian(Lambertian { albedo: vec3(FX_ONE / 2, FX_ONE / 2, FX_ONE / 2) });
    let a = Geometry::Sphere(Sphere::new(vec3(fx_of(-3), 0, fx_of(-5)), fx_of(1), mat));
    let b = Geometry::Sphere(Sphere::new(vec3(fx_of(3), 0, fx_of(-5)), fx_of(1), mat));
    for seed in [10u64, 11, 12, 13] {
        let mut rng = seeded(seed);
        let tree = BVHNode::new(vec![a, b], 0, fx_of(1), &mut rng);
        let list = HittableList { list: vec![a, b] };
        assert_eq!(tree.bounding_box(0, fx_of(1)), list.bounding_box(0, fx_of(1)));
        let rays = [
            // straight at the left sphere
            Ray::new(vec3(fx_of(-3), 0, 0), vec3(0, 0, -FX_ONE), 0),
            // straight at the right sphere
            Ray::new(vec3(fx_of(3), 0, 0), vec3(0, 0, -FX_ONE), 0),
            // between the two, missing both
            Ray::new(vec3(0, 0, 0), vec3(0, 0, -FX_ONE), 0),
            // slanted across the scene
            Ray::new(vec3(fx_of(-8), 0, fx_of(-5)), vec3(FX_ONE, 0, 0), 0),
            // pointing away from everything
            Ray::new(vec3(0, 0, 0), vec3(0, FX_ONE, 0), 0),
        ];
        for r in rays.iter() {
            assert_eq!(tree.hit(r, HIT_EPS, FX_MAX), list.hit(r, HIT_EPS, FX_MAX));
        }
    }
}

#[test]
fn the_root_box_contains_every_sphere() {
    let mat = Material::Lambertian(Lambertian { albedo: vec3(FX_ONE / 2, FX_ONE / 2, FX_ONE / 2) });
    let spheres = [
        Sphere::new(vec3(fx_of(-3), fx_of(2), fx_of(-5)), fx_of(1), mat),
        Sphere::new(vec3(fx_of(3), 0, fx_of(-9)), fx_of(2), mat),
        Sphere::new(vec3(0, fx_of(-4), fx_of(-7)), fx_of(1), mat),
    ];
    let objs: Vec<Geometry> = spheres.iter().map(|s| Geometry::Sphere(*s)).collect();
    let mut rng = seeded(15);
    let tree = BVHNode::new(objs, 0, fx_of(1), &mut rng);
    let root = tree.bounding_box(0, fx_of(1)).unwrap();
    for s in spheres.iter() {
        let b = s.bounding_box(0, fx_of(1)).unwrap();
        assert!(root.min().x() <= b.min().x());
        assert!(root.min().y() <= b.min().y());
        assert!(root.min().z() <= b.min().z());
        assert!(root.max().x() >= b.max().x());
        assert!(root.max().y() >= b.max().y());
        assert!(root.max().z() >= b.max().z());
    }
}

#[test]
fn a_larger_tree_still_finds_the_nearest_surface() {
    let mat = Material::Lambertian(Lambertian { albedo: vec3(FX_ONE / 2, FX_ONE / 2, FX_ONE / 2) });
    let mut objs: Vec<Geometry> = Vec::new();
    for i in 0..7i64 {
        objs.push(Geometry::Sphere(Sphere::new(
            vec3(fx_of(3 * i - 9), 0, fx_of(-4 - 2 * i)),
            fx_of(1),
            mat,
        )));
    }
    let mut rng = seeded(14);
    let tree = BVHNode::new(objs.clone(), 0, fx_of(1), &mut rng);
    let list = HittableList { list: objs };
    // each sphere seen straight on, plus some misses
    for i in 0..7i64 {
        let r = Ray::new(vec3(fx_of(3 * i - 9), 0, fx_of(10)), vec3(0, 0, -FX_ONE), 0);
        let from_tree = tree.hit(&r, HIT_EPS, FX_MAX);
        let from_list = list.hit(&r, HIT_EPS, FX_MAX);
        assert_eq!(from_tree, from_list);
        assert_eq!(from_tree.unwrap().t, fx_of(13 + 2 * i));
    }
    let miss = Ray::new(vec3(0, fx_of(20), 0), vec3(0, FX_ONE, 0), 0);
    assert!(tree.hit(&miss, HIT_EPS, FX_MAX).is_none());
}
