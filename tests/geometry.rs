use rayt::aabb::Aabb;
use rayt::bvh::{Bvh, BvhError};
use rayt::frac::Frac;
use rayt::hittable::HitRecord;
use rayt::material::{Dielectric, Lambertian, Material, Metal};
use rayt::ray::Ray;
use rayt::shape::Shape;
use rayt::sphere::Sphere;
use rayt::vec3::{Vec3, WideVec};

fn v(x: i64, y: i64, z: i64) -> Vec3 {
    Vec3::new(x, y, z)
}

fn white() -> Material {
    Material::new_lambertian(v(1000, 1000, 1000))
}

fn far() -> Frac {
    Frac::new(1_000_000_000_000, 1)
}

#[test]
fn enclose_contains_both_and_commutes() {
    let a = Aabb::new(v(0, 0, 0), v(2, 3, 4));
    let b = Aabb::new(v(-1, 5, 1), v(1, 6, 9));
    let ab = a.enclose(&b);
    assert_eq!(ab, Aabb::new(v(-1, 0, 0), v(2, 6, 9)));
    assert_eq!(ab, b.enclose(&a));
}

#[test]
fn enclose_with_empty_is_identity() {
    let a = Aabb::new(v(1, 2, 3), v(4, 5, 6));
    assert_eq!(a.enclose(&Aabb::Empty), a);
    assert_eq!(Aabb::Empty.enclose(&a), a);
    assert!(Aabb::Empty.is_empty());
    assert!(!a.is_empty());
}

#[test]
fn slab_hit_and_miss() {
    let b = Aabb::new(v(-1, -1, -1), v(1, 1, 1));
    let toward = Ray::new(v(-5, 0, 0), v(1, 0, 0), 0);
    assert!(b.hit(&toward, &Frac::new(0, 1), &far()));
    let away = Ray::new(v(-5, 0, 0), v(-1, 0, 0), 0);
    assert!(!b.hit(&away, &Frac::new(0, 1), &far()));
    // the box lies at parameters in (4, 6): an interval that ends before it misses
    assert!(!b.hit(&toward, &Frac::new(0, 1), &Frac::new(4, 1)));
    assert!(b.hit(&toward, &Frac::new(0, 1), &Frac::new(9, 2)));
    let diagonal = Ray::new(v(-5, 3, 0), v(1, 0, 0), 0);
    // an axis the ray does not move along places no constraint
    assert!(b.hit(&diagonal, &Frac::new(0, 1), &far()));
    assert!(!Aabb::Empty.hit(&toward, &Frac::new(0, 1), &far()));
}

#[test]
fn slab_hit_is_monotone_under_containment() {
    let inner = Aabb::new(v(2, 2, 2), v(3, 3, 3));
    let outer = Aabb::new(v(0, 0, 0), v(5, 5, 5));
    let r = Ray::new(v(-4, -4, -4), v(1, 1, 1), 0);
    assert!(inner.hit(&r, &Frac::new(0, 1), &far()));
    assert!(outer.hit(&r, &Frac::new(0, 1), &far()));
}

#[test]
fn sphere_on_axis_hits_at_distance_minus_and_plus_radius() {
    let s = Sphere::new(v(10, 0, 0), 3, white());
    let r = Ray::new(v(0, 0, 0), v(1, 0, 0), 0);
    let h = s.hit(&r, &Frac::new(0, 1), &far()).unwrap();
    assert_eq!(h.t.num * 1, 7 * h.t.den);
    assert!(h.front_face);
    assert!(h.normal.x < 0 && h.normal.y == 0 && h.normal.z == 0);
    let h2 = s.hit(&r, &Frac::new(8, 1), &far()).unwrap();
    assert_eq!(h2.t.num, 13 * h2.t.den);
    assert!(!h2.front_face);
    assert!(h2.normal.x < 0);
    let r2 = Ray::new(v(0, 0, 0), v(2, 0, 0), 0);
    let h3 = s.hit(&r2, &Frac::new(0, 1), &far()).unwrap();
    assert_eq!(h3.t.num * 2, 7 * h3.t.den);
}

#[test]
fn sphere_misses() {
    let s = Sphere::new(v(10, 0, 0), 3, white());
    let r = Ray::new(v(0, 5, 0), v(1, 0, 0), 0);
    assert!(s.hit(&r, &Frac::new(0, 1), &far()).is_none());
    let still = Ray::new(v(0, 0, 0), v(0, 0, 0), 0);
    assert!(s.hit(&still, &Frac::new(0, 1), &far()).is_none());
    let behind = Ray::new(v(0, 0, 0), v(-1, 0, 0), 0);
    assert!(s.hit(&behind, &Frac::new(0, 1), &far()).is_none());
}

#[test]
fn sphere_bounding_box() {
    let s = Sphere::new(v(1, 2, 3), 2, white());
    assert_eq!(s.bounding_box(), Aabb::new(v(-1, 0, 1), v(3, 4, 5)));
}

#[test]
fn face_normal_turns_against_ray() {
    let mut rec = HitRecord::new(white());
    let r = Ray::new(v(0, 0, 0), v(1, 0, 0), 0);
    rec.set_face_normal(&r, &WideVec { x: 1, y: 0, z: 0 });
    assert!(!rec.front_face);
    assert_eq!(rec.normal, WideVec { x: -1, y: 0, z: 0 });
    rec.set_face_normal(&r, &WideVec { x: -1, y: 0, z: 0 });
    assert!(rec.front_face);
    assert_eq!(rec.normal, WideVec { x: -1, y: 0, z: 0 });
}

fn brute_force(shapes: &[Shape], r: &Ray, t_min: &Frac, t_max: &Frac) -> Option<HitRecord> {
    let mut best: Option<HitRecord> = None;
    let mut bound = *t_max;
    for s in shapes {
        if let Some(h) = s.hit(r, t_min, &bound) {
            bound = h.t;
            best = Some(h);
        }
    }
    best
}

#[test]
fn bvh_matches_linear_scan() {
    let mut shapes = Vec::new();
    let mut seed: u64 = 12345;
    let mut next = |m: i64| {
        seed = seed.wrapping_mul(6364136223846793005).wrapping_add(1442695040888963407);
        ((seed >> 33) as i64) % m
    };
    for i in 0..40 {
        let c = v(next(200) - 100, next(200) - 100, next(200) - 100);
        let mat = if i % 2 == 0 { white() } else { Material::new_metal(v(500, 500, 500), 300) };
        shapes.push(Shape::new_sphere(c, 1 + next(15), mat));
    }
    let bvh = Bvh::build(shapes.clone()).unwrap();
    let t_min = Frac::new(1, 1000);
    for _ in 0..300 {
        let o = v(next(400) - 200, next(400) - 200, next(400) - 200);
        let d = v(next(41) - 20, next(41) - 20, next(41) - 20);
        let r = Ray::new(o, d, 0);
        let a = bvh.hit(&r, &t_min, &far());
        let b = brute_force(&shapes, &r, &t_min, &far());
        match (a, b) {
            (None, None) => {}
            (Some(x), Some(y)) => {
                assert_eq!(x.t.num * y.t.den, y.t.num * x.t.den);
                assert_eq!(x.material, y.material);
                assert_eq!(x.front_face, y.front_face);
            }
            _ => panic!("bvh and linear scan disagree"),
        }
    }
}

#[test]
fn bvh_build_errors() {
    assert_eq!(Bvh::build(Vec::new()).unwrap_err(), BvhError::EmptyScene);
    let one = vec![Shape::new_sphere(v(0, 0, 0), 1, white())];
    let b = Bvh::build(one).unwrap();
    assert_eq!(b.nodes.len(), 1);
    let two = vec![
        Shape::new_sphere(v(5, 0, 0), 1, white()),
        Shape::new_sphere(v(0, 0, 0), 1, white()),
    ];
    let b = Bvh::build(two).unwrap();
    assert_eq!(b.nodes.len(), 3);
}

#[test]
fn material_constructors() {
    let m = Metal::new(v(1, 2, 3), 1500);
    assert_eq!(m.fuzz, 1000);
    assert_eq!(Metal::new(v(1, 2, 3), -5).fuzz, 0);
    assert_eq!(Metal::new(v(1, 2, 3), 300).fuzz, 300);
    assert_eq!(Lambertian::new(v(4, 5, 6)).albedo, v(4, 5, 6));
    assert_eq!(Dielectric::new(1500).ref_idx, 1500);
    assert_eq!(Material::new_dielectric(1500), Material::Dielectric(Dielectric::new(1500)));
}

#[test]
fn bvh_prunes_a_hit_on_an_empty_interval() {
    // the sphere reports a hit exactly at t = 7 when the interval is [7, 7];
    // the slab test of an empty open interval prunes it
    let s = Sphere::new(v(10, 0, 0), 3, white());
    let r = Ray::new(v(0, 0, 0), v(1, 0, 0), 0);
    let seven = Frac::new(7, 1);
    assert!(s.hit(&r, &seven, &seven).is_some());
    let bvh = Bvh::build(vec![Shape::new_sphere(v(10, 0, 0), 3, white())]).unwrap();
    assert!(bvh.hit(&r, &seven, &seven).is_none());
    // strictly inside the interval the hit is found
    assert!(bvh.hit(&r, &Frac::new(6, 1), &Frac::new(8, 1)).is_some());
}
