use rayt::bvh::Bvh;
use rayt::integrator::Bounce;
use rayt::material::Material;
use rayt::ray::Ray;
use rayt::render::{render_pixel, next_bounce, trace_path, unit_vector, Pixel};
use rayt::scatter::Draws;
use rayt::shape::Shape;
use rayt::vec3::Vec3;

fn v(x: i64, y: i64, z: i64) -> Vec3 {
    Vec3::new(x, y, z)
}

fn unit_sphere_scene() -> Bvh {
    let white = Material::new_lambertian(v(1000, 1000, 1000));
    Bvh::build(vec![Shape::new_sphere(v(0, 0, 0), 1000, white)]).unwrap()
}

fn straight_up_draws(n: usize) -> Vec<Draws> {
    vec![Draws { on_sphere: v(0, 0, 1000), in_ball: v(0, 0, 0), uniform: 0 }; n]
}

#[test]
fn unit_vector_scales_to_unit() {
    assert_eq!(unit_vector(3, 4, 0), v(600, 800, 0));
    assert_eq!(unit_vector(0, 0, -7), v(0, 0, -1000));
    assert_eq!(unit_vector(0, 0, 0), v(0, 0, 0));
    let big = unit_vector(300_000_000_000_000_000_000, -400_000_000_000_000_000_000, 0);
    assert!(big.x == 599 || big.x == 600);
    assert!(big.y == -799 || big.y == -800);
    assert_eq!(big.z, 0);
}

#[test]
fn step_bounces_off_sphere() {
    let b = unit_sphere_scene();
    let r = Ray::new(v(0, 0, 5000), v(0, 0, -1000), 0);
    let (bounce, next) = next_bounce(&b, &r, &straight_up_draws(1)[0]);
    assert_eq!(bounce, Bounce::Scattered { attenuation: v(1000, 1000, 1000) });
    let nr = next.unwrap();
    assert_eq!(nr.origin, v(0, 0, 1000));
    assert_eq!(nr.dir, v(0, 0, 2000));
    let (bounce, next) = next_bounce(&b, &nr, &straight_up_draws(1)[0]);
    assert_eq!(bounce, Bounce::Escaped { unit_y: 0 });
    assert!(next.is_none());
}

#[test]
fn trace_path_collects_bounces() {
    let b = unit_sphere_scene();
    let r = Ray::new(v(0, 0, 5000), v(0, 0, -1000), 0);
    let (steps, c) = trace_path(&b, &r, 50, &straight_up_draws(50));
    assert_eq!(steps.len(), 2);
    assert_eq!(c, v(750, 850, 1000));
    let (steps, c) = trace_path(&b, &r, 1, &straight_up_draws(50));
    assert_eq!(steps.len(), 1);
    assert_eq!(c, v(0, 0, 0));
    let (steps, _) = trace_path(&b, &r, 50, &Vec::new());
    assert!(steps.is_empty());
}

#[test]
fn render_single_sphere_center_and_corner() {
    let b = unit_sphere_scene();
    let center = render_pixel(&b, &vec![Ray::new(v(0, 0, 5000), v(0, 0, -1000), 0)], &vec![straight_up_draws(50)], 50);
    assert_eq!(center, Pixel { r: 221, g: 235, b: 255 });
    assert!(center.r > 0 || center.g > 0 || center.b > 0);
    let corner = render_pixel(&b, &vec![Ray::new(v(0, 0, 5000), v(-700, 700, -1000), 0)], &vec![straight_up_draws(50)], 50);
    assert_eq!(corner, Pixel { r: 202, g: 225, b: 255 });
    let black = render_pixel(&b, &vec![Ray::new(v(0, 0, 5000), v(0, 0, -1000), 0)], &vec![straight_up_draws(50)], 0);
    assert_eq!(black, Pixel { r: 0, g: 0, b: 0 });
}

#[test]
fn rendering_is_reproducible() {
    let mut shapes = Vec::new();
    for i in 0..5i64 {
        shapes.push(Shape::new_sphere(v(i * 3000 - 6000, 0, 0), 1000, Material::new_metal(v(800, 700, 600), 200)));
    }
    shapes.push(Shape::new_sphere(v(0, -101_000, 0), 100_000, Material::new_lambertian(v(500, 500, 500))));
    shapes.push(Shape::new_sphere(v(0, 2000, 0), 1000, Material::new_dielectric(1500)));
    let b = Bvh::build(shapes).unwrap();
    let mut seed: u64 = 7;
    let mut next = |m: i64| {
        seed = seed.wrapping_mul(6364136223846793005).wrapping_add(1442695040888963407);
        ((seed >> 33) as i64) % m
    };
    let mut rays = Vec::new();
    let mut draws = Vec::new();
    for _ in 0..4 {
        rays.push(Ray::new(v(0, 1000, 20000), v(next(400) - 200, next(400) - 200, -1000), 0));
        let mut ds = Vec::new();
        for _ in 0..10 {
            ds.push(Draws { on_sphere: v(0, 600, 800), in_ball: v(next(1000) - 500, 0, 0), uniform: next(1000) });
        }
        draws.push(ds);
    }
    let a = render_pixel(&b, &rays, &draws, 10);
    let c = render_pixel(&b, &rays, &draws, 10);
    assert_eq!(a, c);
}
