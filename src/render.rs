use vstd::prelude::*;
use crate::bvh::{Bvh, trace, lemma_trace_material, lemma_trace_wf};
use crate::frac::{Frac, FRAC_MAX};
use crate::integrator::{Bounce, color_ok, path_color, ray_color, steps_ok};
use crate::isqrt::{floor_sqrt, is_floor_sqrt, isqrt};
use crate::material::{Color, Material};
use crate::ray::Ray;
use crate::scatter::{Draws, SurfaceHit, UNIT, draws_ok, material_ok, scatter_spec, unit_scaled};
use crate::sphere::lemma_mul_bound;
use crate::vec3::{Vec3, COORD_MAX};

verus! {

/// `a / b` rounded toward zero, for `b > 0`.
pub open spec fn tdiv(a: int, b: int) -> int {
    if a >= 0 {
        a / b
    } else {
        -((-a) / b)
    }
}

pub open spec fn abs(a: int) -> int {
    if a >= 0 {
        a
    } else {
        -a
    }
}

/// The largest coordinate magnitude.
pub open spec fn max_abs(x: int, y: int, z: int) -> int {
    let (a, b, c) = (abs(x), abs(y), abs(z));
    if a >= b && a >= c {
        a
    } else if b >= c {
        b
    } else {
        c
    }
}

/// The same direction with coordinates no larger than `lim`: unchanged
/// where that already holds, else divided (toward zero) by
/// `max / lim + 1`.
pub open spec fn shrink(x: int, y: int, z: int, lim: int) -> (int, int, int) {
    let m = max_abs(x, y, z);
    if m <= lim {
        (x, y, z)
    } else {
        let f = m / lim + 1;
        (tdiv(x, f), tdiv(y, f), tdiv(z, f))
    }
}

/// The direction scaled to length `UNIT` (each coordinate rounded toward
/// zero), after shrinking it to coordinates of at most `10^9`; the zero
/// vector stays zero.
pub open spec fn unit_of(x: int, y: int, z: int) -> Vec3 {
    let (a, b, c) = shrink(x, y, z, 1_000_000_000);
    let len = floor_sqrt(a * a + b * b + c * c);
    if len == 0 {
        Vec3 { x: 0, y: 0, z: 0 }
    } else {
        Vec3 {
            x: tdiv(a * UNIT, len) as i64,
            y: tdiv(b * UNIT, len) as i64,
            z: tdiv(c * UNIT, len) as i64,
        }
    }
}

/// The point of `r` at parameter `t`, with the offset from the origin
/// rounded toward zero on each axis.
pub open spec fn point_at(r: Ray, t: Frac) -> (int, int, int) {
    (
        r.origin.x + tdiv(t.num * r.dir.x, t.den as int),
        r.origin.y + tdiv(t.num * r.dir.y, t.den as int),
        r.origin.z + tdiv(t.num * r.dir.z, t.den as int),
    )
}

pub open spec fn in_coords(p: (int, int, int)) -> bool {
    -COORD_MAX <= p.0 <= COORD_MAX && -COORD_MAX <= p.1 <= COORD_MAX && -COORD_MAX <= p.2
        <= COORD_MAX
}

/// Nearest parameter that counts as a hit, to step off the surface just left.
pub open spec fn eps() -> Frac {
    Frac { num: 1, den: 1000 }
}

/// Largest parameter searched.
pub open spec fn far() -> Frac {
    Frac { num: FRAC_MAX, den: 1 }
}

/// One bounce of `r` through the scene with the draws `d`: what happened,
/// and the ray that goes on, if one does. A hit whose point leaves the
/// coordinate range, whose rounded normal no longer faces the ray, or whose
/// scattered direction rounds to zero ends the path as absorbed.
pub open spec fn step(b: Bvh, r: Ray, d: Draws) -> (Bounce, Option<Ray>) {
    match trace(b.shapes@, b.nodes@, b.root(), r, eps(), far()) {
        None => (Bounce::Escaped { unit_y: unit_of(r.dir.x as int, r.dir.y as int, r.dir.z as int).y }, None),
        Some(h) => {
            let p = point_at(r, h.t);
            let n = unit_of(h.normal.x as int, h.normal.y as int, h.normal.z as int);
            let v = unit_of(r.dir.x as int, r.dir.y as int, r.dir.z as int);
            if !in_coords(p) || v.dot_spec(n) > 0 {
                (Bounce::Absorbed, None)
            } else {
                let pt = Vec3 { x: p.0 as i64, y: p.1 as i64, z: p.2 as i64 };
                match scatter_spec(h.material, v, SurfaceHit { point: pt, normal: n, front_face: h.front_face }, d) {
                    None => (Bounce::Absorbed, None),
                    Some(s) => {
                        let (x, y, z) = shrink(s.ray.dir.x as int, s.ray.dir.y as int, s.ray.dir.z as int, COORD_MAX as int);
                        if x == 0 && y == 0 && z == 0 {
                            (Bounce::Absorbed, None)
                        } else {
                            (
                                Bounce::Scattered { attenuation: s.attenuation },
                                Some(Ray { origin: pt, dir: Vec3 { x: x as i64, y: y as i64, z: z as i64 }, time: r.time }),
                            )
                        }
                    },
                }
            }
        },
    }
}

/// The bounces of a path that starts with `r` and uses `draws[i..]`, at
/// most `depth` of them.
pub open spec fn path_steps(b: Bvh, r: Ray, draws: Seq<Draws>, i: int, depth: nat) -> Seq<Bounce>
    decreases depth,
{
    if depth == 0 || !(0 <= i < draws.len()) {
        Seq::empty()
    } else {
        let (bounce, next) = step(b, r, draws[i]);
        match next {
            None => seq![bounce],
            Some(nr) => seq![bounce] + path_steps(b, nr, draws, i + 1, (depth - 1) as nat),
        }
    }
}

/// Magnitude bound for the inputs of the conversions below.
pub const BIG: i128 = 1_000_000_000_000_000_000_000_000_000_000;

fn tdiv_exec(a: i128, b: i128) -> (q: i128)
    requires
        0 < b,
        -BIG <= a <= BIG,
    ensures
        q == tdiv(a as int, b as int),
        abs(q as int) <= abs(a as int),
{
    if a >= 0 {
        proof {
            vstd::arithmetic::div_mod::lemma_div_is_ordered_by_denominator(a as int, 1, b as int);
        }
        a / b
    } else {
        proof {
            vstd::arithmetic::div_mod::lemma_div_is_ordered_by_denominator(-a as int, 1, b as int);
        }
        -((-a) / b)
    }
}

/// `|a| / f <= lim` whenever `|a| <= m` and `f = m / lim + 1`.
proof fn lemma_shrunk(a: int, m: int, lim: int)
    requires
        0 < lim,
        abs(a) <= m,
    ensures
        abs(tdiv(a, m / lim + 1)) <= lim,
{
    let f = m / lim + 1;
    vstd::arithmetic::div_mod::lemma_fundamental_div_mod(m, lim);
    assert(0 <= m % lim < lim) by {
        vstd::arithmetic::div_mod::lemma_mod_pos_bound(m, lim);
    }
    assert(m < f * lim) by (nonlinear_arith)
        requires m == lim * (m / lim) + m % lim, m % lim < lim, f == m / lim + 1;
    assert(f > 0) by (nonlinear_arith)
        requires f * lim > m, m >= 0, lim > 0;
    let x = abs(a);
    vstd::arithmetic::div_mod::lemma_fundamental_div_mod(x, f);
    vstd::arithmetic::div_mod::lemma_mod_pos_bound(x, f);
    let q = x / f;
    assert(q <= lim) by (nonlinear_arith)
        requires x == f * q + x % f, 0 <= x % f, x <= m, m < f * lim, f > 0;
    assert(abs(tdiv(a, f)) == q);
}

fn shrink_exec(x: i128, y: i128, z: i128, lim: i128) -> (r: (i128, i128, i128))
    requires
        -BIG <= x <= BIG,
        -BIG <= y <= BIG,
        -BIG <= z <= BIG,
        0 < lim,
    ensures
        (r.0 as int, r.1 as int, r.2 as int) == shrink(x as int, y as int, z as int, lim as int),
        abs(r.0 as int) <= lim,
        abs(r.1 as int) <= lim,
        abs(r.2 as int) <= lim,
{
    let ax = if x >= 0 { x } else { -x };
    let ay = if y >= 0 { y } else { -y };
    let az = if z >= 0 { z } else { -z };
    let m = if ax >= ay && ax >= az {
        ax
    } else if ay >= az {
        ay
    } else {
        az
    };
    assert(m == max_abs(x as int, y as int, z as int));
    if m <= lim {
        (x, y, z)
    } else {
        let f = m / lim + 1;
        proof {
            lemma_shrunk(x as int, m as int, lim as int);
            lemma_shrunk(y as int, m as int, lim as int);
            lemma_shrunk(z as int, m as int, lim as int);
            vstd::arithmetic::div_mod::lemma_div_is_ordered_by_denominator(m as int, 1, lim as int);
        }
        (tdiv_exec(x, f), tdiv_exec(y, f), tdiv_exec(z, f))
    }
}

/// `|a| <= floor_sqrt(a^2 + b^2 + c^2)`.
proof fn lemma_coord_le_len(a: int, b: int, c: int, len: int)
    requires
        is_floor_sqrt(a * a + b * b + c * c, len),
    ensures
        abs(a) <= len,
{
    assert(0 <= b * b && 0 <= c * c) by (nonlinear_arith);
    assert(abs(a) * abs(a) == a * a) by (nonlinear_arith);
    assert(abs(a) <= len) by (nonlinear_arith)
        requires
            abs(a) * abs(a) <= a * a + b * b + c * c,
            a * a + b * b + c * c < (len + 1) * (len + 1),
            0 <= len,
            0 <= abs(a);
}

/// The unit-scaled direction of `(x, y, z)`; see `unit_of`.
pub fn unit_vector(x: i128, y: i128, z: i128) -> (v: Vec3)
    requires
        -BIG <= x <= BIG,
        -BIG <= y <= BIG,
        -BIG <= z <= BIG,
    ensures
        v == unit_of(x as int, y as int, z as int),
        unit_scaled(v),
{
    let (a, b, c) = shrink_exec(x, y, z, 1_000_000_000);
    proof {
        lemma_mul_bound(a as int, a as int, 1_000_000_000, 1_000_000_000);
        lemma_mul_bound(b as int, b as int, 1_000_000_000, 1_000_000_000);
        lemma_mul_bound(c as int, c as int, 1_000_000_000, 1_000_000_000);
        assert(0 <= a * a && 0 <= b * b && 0 <= c * c) by (nonlinear_arith);
    }
    let len = isqrt(a * a + b * b + c * c);
    if len == 0 {
        return Vec3 { x: 0, y: 0, z: 0 };
    }
    proof {
        lemma_coord_le_len(a as int, b as int, c as int, len as int);
        lemma_coord_le_len(b as int, a as int, c as int, len as int);
        lemma_coord_le_len(c as int, b as int, a as int, len as int);
        assert(a * a + b * b + c * c == b * b + a * a + c * c);
        assert(a * a + b * b + c * c == c * c + b * b + a * a);
    }
    let qx = tdiv_exec(a * 1000, len);
    let qy = tdiv_exec(b * 1000, len);
    let qz = tdiv_exec(c * 1000, len);
    proof {
        assert(abs(qx as int) <= 1000) by {
            assert(abs(a * 1000) <= 1000 * len);
            vstd::arithmetic::div_mod::lemma_div_is_ordered(abs(a * 1000), 1000 * len, len as int);
            vstd::arithmetic::div_mod::lemma_div_multiples_vanish(1000, len as int);
        }
        assert(abs(qy as int) <= 1000) by {
            assert(abs(b * 1000) <= 1000 * len);
            vstd::arithmetic::div_mod::lemma_div_is_ordered(abs(b * 1000), 1000 * len, len as int);
            vstd::arithmetic::div_mod::lemma_div_multiples_vanish(1000, len as int);
        }
        assert(abs(qz as int) <= 1000) by {
            assert(abs(c * 1000) <= 1000 * len);
            vstd::arithmetic::div_mod::lemma_div_is_ordered(abs(c * 1000), 1000 * len, len as int);
            vstd::arithmetic::div_mod::lemma_div_multiples_vanish(1000, len as int);
        }
    }
    Vec3 { x: qx as i64, y: qy as i64, z: qz as i64 }
}

/// A material the renderer can use: its parameters are in range and its
/// albedo lies in `[0, 1]`.
pub open spec fn material_fits(m: Material) -> bool {
    material_ok(m) && match m {
        Material::Lambertian(l) => color_ok(l.albedo),
        Material::Metal(mm) => color_ok(mm.albedo),
        Material::Dielectric(_) => true,
    }
}

/// A hierarchy ready to render: sound, with usable materials throughout.
pub open spec fn scene_ok(b: Bvh) -> bool {
    &&& b.wf()
    &&& forall|k: int| 0 <= k < b.shapes@.len() ==> material_fits(#[trigger] b.shapes@[k].material())
}

fn point_exec(r: &Ray, t: &Frac) -> (p: (i128, i128, i128))
    requires
        r.wf(),
        t.wf(),
    ensures
        (p.0 as int, p.1 as int, p.2 as int) == point_at(*r, *t),
{
    proof {
        let b = FRAC_MAX as int;
        let c = COORD_MAX as int;
        lemma_mul_bound(t.num as int, r.dir.x as int, b, c);
        lemma_mul_bound(t.num as int, r.dir.y as int, b, c);
        lemma_mul_bound(t.num as int, r.dir.z as int, b, c);
    }
    let dx = tdiv_exec(t.num * (r.dir.x as i128), t.den);
    let dy = tdiv_exec(t.num * (r.dir.y as i128), t.den);
    let dz = tdiv_exec(t.num * (r.dir.z as i128), t.den);
    ((r.origin.x as i128) + dx, (r.origin.y as i128) + dy, (r.origin.z as i128) + dz)
}

/// One bounce of `r` through the scene; see `step`.
pub fn next_bounce(b: &Bvh, r: &Ray, d: &Draws) -> (res: (Bounce, Option<Ray>))
    requires
        scene_ok(*b),
        r.wf(),
        draws_ok(*d),
    ensures
        res == step(*b, *r, *d),
        steps_ok(seq![res.0]),
        res.1 matches Some(nr) ==> nr.wf(),
{
    let t_min = Frac::new(1, 1000);
    let t_max = Frac::new(FRAC_MAX, 1);
    let hit = b.hit(r, &t_min, &t_max);
    proof {
        lemma_trace_wf(b.shapes@, b.nodes@, b.root(), *r, t_min, t_max);
        lemma_trace_material(b.shapes@, b.nodes@, b.root(), *r, t_min, t_max);
    }
    let v = unit_vector(r.dir.x as i128, r.dir.y as i128, r.dir.z as i128);
    match hit {
        None => (Bounce::Escaped { unit_y: v.y }, None),
        Some(h) => {
            let p = point_exec(r, &h.t);
            let n = unit_vector(h.normal.x, h.normal.y, h.normal.z);
            proof {
                crate::scatter::lemma_unit_dot(v, n);
            }
            let facing = v.x * n.x + v.y * n.y + v.z * n.z <= 0;
            let c = COORD_MAX as i128;
            if !(-c <= p.0 && p.0 <= c && -c <= p.1 && p.1 <= c && -c <= p.2 && p.2 <= c) || !facing {
                return (Bounce::Absorbed, None);
            }
            let pt = Vec3 { x: p.0 as i64, y: p.1 as i64, z: p.2 as i64 };
            let hitp = SurfaceHit { point: pt, normal: n, front_face: h.front_face };
            match h.material.scatter(&v, &hitp, d) {
                None => (Bounce::Absorbed, None),
                Some(s) => {
                    let (x, y, z) = shrink_exec(
                        s.ray.dir.x as i128,
                        s.ray.dir.y as i128,
                        s.ray.dir.z as i128,
                        COORD_MAX as i128,
                    );
                    if x == 0 && y == 0 && z == 0 {
                        (Bounce::Absorbed, None)
                    } else {
                        (
                            Bounce::Scattered { attenuation: s.attenuation },
                            Some(
                                Ray {
                                    origin: pt,
                                    dir: Vec3 { x: x as i64, y: y as i64, z: z as i64 },
                                    time: r.time,
                                },
                            ),
                        )
                    }
                },
            }
        },
    }
}

/// Follows a path from `r` through the scene for at most `depth` bounces,
/// taking the draws of bounce `k` from `draws[k]`; returns the bounces and
/// the color the path carries back.
pub fn trace_path(b: &Bvh, r: &Ray, depth: usize, draws: &Vec<Draws>) -> (res: (Vec<Bounce>, Color))
    requires
        scene_ok(*b),
        r.wf(),
        forall|k: int| 0 <= k < draws@.len() ==> draws_ok(#[trigger] draws@[k]),
    ensures
        res.0@ == path_steps(*b, *r, draws@, 0, depth as nat),
        res.1 == path_color(res.0@, 0, depth as nat),
        color_ok(res.1),
{
    let mut steps: Vec<Bounce> = Vec::new();
    let mut cur = *r;
    let mut i: usize = 0;
    let mut left = depth;
    let mut done = false;
    while !done && left > 0 && i < draws.len()
        invariant
            scene_ok(*b),
            cur.wf(),
            i <= draws@.len(),
            forall|k: int| 0 <= k < draws@.len() ==> draws_ok(#[trigger] draws@[k]),
            steps_ok(steps@),
            !done ==> steps@ + path_steps(*b, cur, draws@, i as int, left as nat) == path_steps(
                *b,
                *r,
                draws@,
                0,
                depth as nat,
            ),
            done ==> steps@ == path_steps(*b, *r, draws@, 0, depth as nat),
        decreases 2 * (left as int) + (if done { 0int } else { 1int }),
    {
        let (bounce, next) = next_bounce(b, &cur, &draws[i]);
        let ghost before = steps@;
        steps.push(bounce);
        proof {
            assert(steps@ == before + seq![bounce]);
            assert forall|k: int| 0 <= k < steps@.len() implies #[trigger] steps@[k] == steps@[k] by {}
            assert(steps_ok(steps@)) by {
                assert forall|k: int| 0 <= k < steps@.len() implies match #[trigger] steps@[k] {
                    Bounce::Escaped { unit_y } => -1000 <= unit_y <= 1000,
                    Bounce::Absorbed => true,
                    Bounce::Scattered { attenuation } => color_ok(attenuation),
                } by {
                    if k < before.len() {
                        assert(steps@[k] == before[k]);
                    } else {
                        assert(steps@[k] == seq![bounce][0]);
                    }
                }
            }
        }
        match next {
            None => {
                proof {
                    assert(path_steps(*b, cur, draws@, i as int, left as nat) == seq![bounce]);
                }
                done = true;
            },
            Some(nr) => {
                proof {
                    assert(path_steps(*b, cur, draws@, i as int, left as nat) == seq![bounce]
                        + path_steps(*b, nr, draws@, i + 1, (left - 1) as nat));
                    assert(before + (seq![bounce] + path_steps(*b, nr, draws@, i + 1, (left - 1) as nat))
                        == steps@ + path_steps(*b, nr, draws@, i + 1, (left - 1) as nat));
                }
                cur = nr;
                i = i + 1;
                left = left - 1;
            },
        }
    }
    proof {
        if !done {
            assert(path_steps(*b, cur, draws@, i as int, left as nat) == Seq::<Bounce>::empty());
            assert(steps@ + Seq::<Bounce>::empty() == steps@);
        }
    }
    let c = ray_color(&steps, depth);
    (steps, c)
}

/// The 8-bit color of one pixel.
#[derive(Clone, Copy, Debug, PartialEq, Eq)]
pub struct Pixel {
    pub r: u32,
    pub g: u32,
    pub b: u32,
}

/// The color one sample carries back.
pub open spec fn sample_color(b: Bvh, r: Ray, draws: Seq<Draws>, depth: nat) -> Color {
    path_color(path_steps(b, r, draws, 0, depth), 0, depth)
}

/// Channel sums of the first `k` samples.
pub open spec fn sample_sum(b: Bvh, rays: Seq<Ray>, draws: Seq<Vec<Draws>>, depth: nat, k: int) -> (int, int, int)
    decreases k,
{
    if k <= 0 {
        (0, 0, 0)
    } else {
        let (x, y, z) = sample_sum(b, rays, draws, depth, k - 1);
        let c = sample_color(b, rays[k - 1], draws[k - 1]@, depth);
        (x + c.x, y + c.y, z + c.z)
    }
}

/// Renders one pixel from its samples: sample `k` follows `rays[k]` with
/// the draws `draws[k]`; the colors are averaged, gamma-corrected, clamped
/// and scaled to `[0, 255]` (see `channel_spec`).
pub fn render_pixel(b: &Bvh, rays: &Vec<Ray>, draws: &Vec<Vec<Draws>>, depth: usize) -> (px: Pixel)
    requires
        scene_ok(*b),
        0 < rays@.len() <= 1_000_000_000,
        draws@.len() == rays@.len(),
        forall|k: int| 0 <= k < rays@.len() ==> (#[trigger] rays@[k]).wf(),
        forall|k: int, j: int|
            0 <= k < draws@.len() && 0 <= j < draws@[k]@.len() ==> draws_ok(#[trigger] draws@[k]@[j]),
    ensures
        ({
            let (x, y, z) = sample_sum(*b, rays@, draws@, depth as nat, rays@.len() as int);
            &&& px.r as int == crate::integrator::channel_spec(x, rays@.len() as int)
            &&& px.g as int == crate::integrator::channel_spec(y, rays@.len() as int)
            &&& px.b as int == crate::integrator::channel_spec(z, rays@.len() as int)
        }),
{
    let n = rays.len();
    let mut sx: u64 = 0;
    let mut sy: u64 = 0;
    let mut sz: u64 = 0;
    let mut k: usize = 0;
    while k < n
        invariant
            scene_ok(*b),
            n == rays@.len(),
            n <= 1_000_000_000,
            draws@.len() == n,
            k <= n,
            forall|q: int| 0 <= q < rays@.len() ==> (#[trigger] rays@[q]).wf(),
            forall|q: int, j: int|
                0 <= q < draws@.len() && 0 <= j < draws@[q]@.len() ==> draws_ok(#[trigger] draws@[q]@[j]),
            (sx as int, sy as int, sz as int) == sample_sum(*b, rays@, draws@, depth as nat, k as int),
            sx <= 1000 * k && sy <= 1000 * k && sz <= 1000 * k,
        decreases n - k,
    {
        let ds = &draws[k];
        assert forall|j: int| 0 <= j < ds@.len() implies draws_ok(#[trigger] ds@[j]) by {
            assert(draws_ok(draws@[k as int]@[j]));
        }
        let (_, c) = trace_path(b, &rays[k], depth, ds);
        sx = sx + c.x as u64;
        sy = sy + c.y as u64;
        sz = sz + c.z as u64;
        k = k + 1;
    }
    Pixel {
        r: crate::integrator::finalize_channel(sx, n as u64) as u32,
        g: crate::integrator::finalize_channel(sy, n as u64) as u32,
        b: crate::integrator::finalize_channel(sz, n as u64) as u32,
    }
}

} // verus!
