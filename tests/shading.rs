use rayt::bvh::Bvh;
use rayt::frac::Frac;
use rayt::integrator::{background, finalize_channel, ray_color, Bounce};
use rayt::material::{Lambertian, Material, Metal};
use rayt::ray::Ray;
use rayt::scatter::{Draws, SurfaceHit};
use rayt::shape::Shape;
use rayt::vec3::Vec3;

fn v(x: i64, y: i64, z: i64) -> Vec3 {
    Vec3::new(x, y, z)
}

fn up_hit(front_face: bool) -> SurfaceHit {
    SurfaceHit { point: v(1, 2, 3), normal: v(0, 0, 1000), front_face }
}

fn draws(on_sphere: Vec3, in_ball: Vec3, uniform: i64) -> Draws {
    Draws { on_sphere, in_ball, uniform }
}

#[test]
fn lambertian_adds_sphere_point_to_normal() {
    let m = Material::new_lambertian(v(100, 200, 300));
    let s = m.scatter(&v(0, 0, -1000), &up_hit(true), &draws(v(0, 600, 800), v(0, 0, 0), 0)).unwrap();
    assert_eq!(s.attenuation, v(100, 200, 300));
    assert_eq!(s.ray.origin, v(1, 2, 3));
    assert_eq!(s.ray.dir, v(0, 600, 1800));
    // opposite vectors cancel: the normal is used instead
    let l = Lambertian::new(v(1, 1, 1));
    let s = l.scatter(&up_hit(true), &draws(v(0, 0, -1000), v(0, 0, 0), 0));
    assert_eq!(s.ray.dir, v(0, 0, 1000));
}

#[test]
fn lambertian_stays_in_normal_hemisphere() {
    let mut seed: u64 = 99;
    let mut next = |m: i64| {
        seed = seed.wrapping_mul(6364136223846793005).wrapping_add(1442695040888963407);
        ((seed >> 33) as i64) % m
    };
    let n = v(0, 600, 800);
    let hit = SurfaceHit { point: v(0, 0, 0), normal: n, front_face: true };
    let l = Lambertian::new(v(500, 500, 500));
    let mut trials = 0;
    while trials < 2000 {
        let p = v(next(2001) - 1000, next(2001) - 1000, next(2001) - 1000);
        let len2 = p.x * p.x + p.y * p.y + p.z * p.z;
        if len2 > 1_000_000 {
            continue;
        }
        let s = l.scatter(&hit, &draws(p, v(0, 0, 0), 0));
        let d = s.ray.dir;
        assert!(n.x * d.x + n.y * d.y + n.z * d.z >= 0);
        trials += 1;
    }
}

#[test]
fn metal_mirrors_and_absorbs_below_surface() {
    let m = Material::new_metal(v(700, 600, 500), 0);
    let s = m.scatter(&v(600, 0, -800), &up_hit(true), &draws(v(0, 0, 0), v(0, 0, 0), 0)).unwrap();
    assert_eq!(s.ray.dir, v(600_000_000, 0, 800_000_000));
    assert_eq!(s.attenuation, v(700, 600, 500));
    let fuzzy = Metal::new(v(700, 600, 500), 1000);
    let r = fuzzy.scatter(&v(600, 0, -800), &up_hit(true), &draws(v(0, 0, 0), v(0, 0, -1000), 0));
    assert!(r.is_none());
}

#[test]
fn dielectric_index_one_goes_straight() {
    let m = Material::new_dielectric(1000);
    for front in [true, false] {
        for u in [0, 500, 999] {
            let s = m.scatter(&v(0, 0, -1000), &up_hit(front), &draws(v(0, 0, 0), v(0, 0, 0), u)).unwrap();
            assert_eq!(s.ray.dir, v(0, 0, -1_000_000_000_000));
            assert_eq!(s.attenuation, v(1000, 1000, 1000));
        }
    }
}

#[test]
fn dielectric_total_internal_reflection() {
    let m = Material::new_dielectric(1500);
    let s = m.scatter(&v(800, 0, -600), &up_hit(false), &draws(v(0, 0, 0), v(0, 0, 0), 999)).unwrap();
    assert_eq!(s.ray.dir, v(800_000_000, 0, 600_000_000));
}

#[test]
fn dielectric_schlick_choice() {
    let m = Material::new_dielectric(1500);
    // reflectance at normal incidence is 0.04: a draw of 0.999 refracts
    let s = m.scatter(&v(0, 0, -1000), &up_hit(true), &draws(v(0, 0, 0), v(0, 0, 0), 999)).unwrap();
    assert_eq!(s.ray.dir, v(0, 0, -1_500_000_000_000));
    // and a draw of 0 reflects
    let s = m.scatter(&v(0, 0, -1000), &up_hit(true), &draws(v(0, 0, 0), v(0, 0, 0), 0)).unwrap();
    assert_eq!(s.ray.dir, v(0, 0, 1_000_000_000));
}

#[test]
fn background_gradient() {
    assert_eq!(background(1000), v(500, 700, 1000));
    assert_eq!(background(-1000), v(1000, 1000, 1000));
    assert_eq!(background(0), v(750, 850, 1000));
}

#[test]
fn path_color_multiplies_and_cuts_off() {
    let path = vec![Bounce::Scattered { attenuation: v(500, 500, 500) }, Bounce::Escaped { unit_y: 1000 }];
    assert_eq!(ray_color(&path, 50), v(250, 350, 500));
    assert_eq!(ray_color(&path, 1), v(0, 0, 0));
    assert_eq!(ray_color(&path, 0), v(0, 0, 0));
    let absorbed = vec![Bounce::Scattered { attenuation: v(900, 900, 900) }, Bounce::Absorbed];
    assert_eq!(ray_color(&absorbed, 50), v(0, 0, 0));
}

#[test]
fn same_path_same_color() {
    let path = vec![
        Bounce::Scattered { attenuation: v(812, 333, 90) },
        Bounce::Scattered { attenuation: v(500, 999, 1000) },
        Bounce::Escaped { unit_y: 123 },
    ];
    assert_eq!(ray_color(&path, 1), ray_color(&path, 1));
    assert_eq!(ray_color(&path, 10), ray_color(&path, 10));
}

#[test]
fn pixel_channel_finalization() {
    assert_eq!(finalize_channel(10_000, 10), 255);
    assert_eq!(finalize_channel(250, 1), 127);
    assert_eq!(finalize_channel(0, 7), 0);
    assert_eq!(finalize_channel(u64::MAX, 1), 255);
}

#[test]
fn single_white_sphere_scene() {
    let white = Material::new_lambertian(v(1000, 1000, 1000));
    let shapes = vec![Shape::new_sphere(v(0, 0, 0), 1000, white)];
    let bvh = Bvh::build(shapes).unwrap();
    let t_min = Frac::new(1, 1000);
    let t_max = Frac::new(1_000_000_000, 1);
    // the center ray strikes the sphere and bounces off it into the sky
    let center = Ray::new(v(0, 0, 5000), v(0, 0, -1000), 0);
    let h = bvh.hit(&center, &t_min, &t_max).unwrap();
    assert_eq!(h.t.num, 4 * h.t.den);
    assert!(h.front_face);
    let s = h.material.scatter(
        &v(0, 0, -1000),
        &SurfaceHit { point: v(0, 0, 1000), normal: v(0, 0, 1000), front_face: true },
        &draws(v(0, 0, 1000), v(0, 0, 0), 0),
    ).unwrap();
    assert!(bvh.hit(&Ray::new(s.ray.origin, s.ray.dir, 0), &t_min, &t_max).is_none());
    let path = vec![Bounce::Scattered { attenuation: s.attenuation }, Bounce::Escaped { unit_y: 0 }];
    let c = ray_color(&path, 50);
    assert!(c.x > 0 && c.y > 0 && c.z > 0);
    // a corner ray misses and sees the background gradient
    let corner = Ray::new(v(0, 0, 5000), v(-700, 700, -1000), 0);
    assert!(bvh.hit(&corner, &t_min, &t_max).is_none());
    let path = vec![Bounce::Escaped { unit_y: 495 }];
    assert_eq!(ray_color(&path, 50), background(495));
}
