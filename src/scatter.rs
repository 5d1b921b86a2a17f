use vstd::prelude::*;
use crate::isqrt::{floor_sqrt, isqrt, lemma_floor_sqrt_square};
use crate::material::{Color, Dielectric, Lambertian, Material, Metal, COLOR_ONE};
use crate::ray::Ray;
use crate::sphere::lemma_mul_bound;
use crate::vec3::Vec3;

verus! {

/// Length that stands for 1 in a unit-scaled direction.
pub const UNIT: i64 = 1000;

/// Every coordinate lies in `[-UNIT, UNIT]`, as for a unit vector scaled by `UNIT`.
pub open spec fn unit_scaled(v: Vec3) -> bool {
    -UNIT <= v.x <= UNIT && -UNIT <= v.y <= UNIT && -UNIT <= v.z <= UNIT
}

/// Where a surface was struck, as materials see it: the point, the normal
/// (unit-scaled, facing the incoming ray) and which side was struck.
#[derive(Clone, Copy, Debug, PartialEq, Eq)]
pub struct SurfaceHit {
    pub point: Vec3,
    pub normal: Vec3,
    pub front_face: bool,
}

/// The random draws one scattering event may use: a unit-scaled vector on
/// the unit sphere, one inside the unit ball, and a uniform number in
/// `[0, UNIT)`.
#[derive(Clone, Copy, Debug, PartialEq, Eq)]
pub struct Draws {
    pub on_sphere: Vec3,
    pub in_ball: Vec3,
    pub uniform: i64,
}

/// The outcome of a scattering event that was not absorbed.
#[derive(Clone, Copy, Debug, PartialEq, Eq)]
pub struct Scattered {
    pub attenuation: Color,
    pub ray: Ray,
}

pub open spec fn vsum(a: Vec3, b: Vec3) -> Vec3 {
    Vec3 { x: (a.x + b.x) as i64, y: (a.y + b.y) as i64, z: (a.z + b.z) as i64 }
}

pub open spec fn is_zero(v: Vec3) -> bool {
    v.x == 0 && v.y == 0 && v.z == 0
}

/// `u * a + w * b` on each axis.
pub open spec fn combo(u: int, a: Vec3, w: int, b: Vec3) -> Vec3 {
    Vec3 {
        x: (u * a.x + w * b.x) as i64,
        y: (u * a.y + w * b.y) as i64,
        z: (u * a.z + w * b.z) as i64,
    }
}

/// `|v|^2`.
pub open spec fn norm2(v: Vec3) -> int {
    v.dot_spec(v)
}

/// Diffuse direction: the normal plus a point on the unit sphere, or the
/// normal alone where the two cancel.
pub open spec fn lambertian_dir(normal: Vec3, on_sphere: Vec3) -> Vec3 {
    if is_zero(vsum(normal, on_sphere)) {
        normal
    } else {
        vsum(normal, on_sphere)
    }
}

/// Mirror direction of `v` about `n`, perturbed by `fuzz * p`, all scaled
/// by `UNIT^3`: `UNIT^2 v - 2 (v . n) n + UNIT fuzz p`.
pub open spec fn metal_dir(v: Vec3, n: Vec3, fuzz: int, p: Vec3) -> Vec3 {
    Vec3 {
        x: (UNIT * UNIT * v.x - 2 * v.dot_spec(n) * n.x + UNIT * fuzz * p.x) as i64,
        y: (UNIT * UNIT * v.y - 2 * v.dot_spec(n) * n.y + UNIT * fuzz * p.y) as i64,
        z: (UNIT * UNIT * v.z - 2 * v.dot_spec(n) * n.z + UNIT * fuzz * p.z) as i64,
    }
}

impl Lambertian {
    /// Scatters toward the normal's hemisphere; never absorbs.
    pub fn scatter(&self, hit: &SurfaceHit, draws: &Draws) -> (s: Scattered)
        requires
            unit_scaled(hit.normal),
            unit_scaled(draws.on_sphere),
        ensures
            s.attenuation == self.albedo,
            s.ray == (Ray {
                origin: hit.point,
                dir: lambertian_dir(hit.normal, draws.on_sphere),
                time: 0,
            }),
    {
        let n = hit.normal;
        let u = draws.on_sphere;
        let d = Vec3 { x: n.x + u.x, y: n.y + u.y, z: n.z + u.z };
        let dir = if d.x == 0 && d.y == 0 && d.z == 0 {
            n
        } else {
            d
        };
        Scattered { attenuation: self.albedo, ray: Ray { origin: hit.point, dir, time: 0 } }
    }
}

impl Metal {
    /// Reflects `dir_in` (unit-scaled) about the normal, blurred by the
    /// fuzz; the ray is absorbed where the result does not leave the surface.
    pub fn scatter(&self, dir_in: &Vec3, hit: &SurfaceHit, draws: &Draws) -> (s: Option<
        Scattered,
    >)
        requires
            unit_scaled(*dir_in),
            unit_scaled(hit.normal),
            unit_scaled(draws.in_ball),
            0 <= self.fuzz <= COLOR_ONE,
        ensures
            metal_dir(*dir_in, hit.normal, self.fuzz as int, draws.in_ball).dot_spec(hit.normal)
                <= 0 ==> s is None,
            metal_dir(*dir_in, hit.normal, self.fuzz as int, draws.in_ball).dot_spec(hit.normal)
                > 0 ==> s == Some(
                Scattered {
                    attenuation: self.albedo,
                    ray: Ray {
                        origin: hit.point,
                        dir: metal_dir(*dir_in, hit.normal, self.fuzz as int, draws.in_ball),
                        time: 0,
                    },
                },
            ),
    {
        let v = *dir_in;
        let n = hit.normal;
        let p = draws.in_ball;
        proof {
            lemma_unit_dot(v, n);
        }
        let vn = v.x * n.x + v.y * n.y + v.z * n.z;
        let f = self.fuzz;
        proof {
            let u = UNIT as int;
            lemma_mul_bound(vn as int, n.x as int, 3_000_000, u);
            lemma_mul_bound(vn as int, n.y as int, 3_000_000, u);
            lemma_mul_bound(vn as int, n.z as int, 3_000_000, u);
            lemma_mul_bound(f as int, p.x as int, u, u);
            lemma_mul_bound(f as int, p.y as int, u, u);
            lemma_mul_bound(f as int, p.z as int, u, u);
            lemma_mul_bound(u * u, v.x as int, u * u, u);
            lemma_mul_bound(u * u, v.y as int, u * u, u);
            lemma_mul_bound(u * u, v.z as int, u * u, u);
        }
        let dir = Vec3 {
            x: UNIT * UNIT * v.x - 2 * (vn * n.x) + UNIT * (f * p.x),
            y: UNIT * UNIT * v.y - 2 * (vn * n.y) + UNIT * (f * p.y),
            z: UNIT * UNIT * v.z - 2 * (vn * n.z) + UNIT * (f * p.z),
        };
        assert(dir == metal_dir(v, n, f as int, p)) by (nonlinear_arith)
            requires
                dir.x == UNIT * UNIT * v.x - 2 * (vn * n.x) + UNIT * (f * p.x),
                dir.y == UNIT * UNIT * v.y - 2 * (vn * n.y) + UNIT * (f * p.y),
                dir.z == UNIT * UNIT * v.z - 2 * (vn * n.z) + UNIT * (f * p.z),
                vn == v.dot_spec(n);
        proof {
            let b = 9_000_000_000;
            lemma_mul_bound(dir.x as int, n.x as int, b, UNIT as int);
            lemma_mul_bound(dir.y as int, n.y as int, b, UNIT as int);
            lemma_mul_bound(dir.z as int, n.z as int, b, UNIT as int);
        }
        if dir.x * n.x + dir.y * n.y + dir.z * n.z <= 0 {
            None
        } else {
            Some(Scattered { attenuation: self.albedo, ray: Ray { origin: hit.point, dir, time: 0 } })
        }
    }
}

/// The dot product of two unit-scaled vectors is at most `3 UNIT^2` in size.
pub proof fn lemma_unit_dot(a: Vec3, b: Vec3)
    requires
        unit_scaled(a),
        unit_scaled(b),
    ensures
        -1_000_000 <= a.x * b.x <= 1_000_000,
        -1_000_000 <= a.y * b.y <= 1_000_000,
        -1_000_000 <= a.z * b.z <= 1_000_000,
        -3_000_000 <= a.dot_spec(b) <= 3_000_000,
{
    let u = UNIT as int;
    lemma_mul_bound(a.x as int, b.x as int, u, u);
    lemma_mul_bound(a.y as int, b.y as int, u, u);
    lemma_mul_bound(a.z as int, b.z as int, u, u);
}

/// A diffuse bounce never leaves through the surface: where the sphere
/// point is no longer than the normal, the scattered direction lies in the
/// normal's closed hemisphere.
pub proof fn lemma_lambertian_hemisphere(normal: Vec3, on_sphere: Vec3)
    requires
        unit_scaled(normal),
        unit_scaled(on_sphere),
        norm2(on_sphere) <= norm2(normal),
    ensures
        normal.dot_spec(lambertian_dir(normal, on_sphere)) >= 0,
{
    let n = normal;
    let u = on_sphere;
    let nn = norm2(n);
    let uu = norm2(u);
    let nu = n.dot_spec(u);
    let w = vsum(n, u);
    assert(norm2(w) == nn + 2 * nu + uu) by (nonlinear_arith)
        requires
            w.x == n.x + u.x,
            w.y == n.y + u.y,
            w.z == n.z + u.z,
            nn == norm2(n),
            uu == norm2(u),
            nu == n.dot_spec(u);
    assert(0 <= norm2(w)) by (nonlinear_arith)
        requires norm2(w) == w.x * w.x + w.y * w.y + w.z * w.z;
    assert(0 <= nn) by (nonlinear_arith)
        requires nn == n.x * n.x + n.y * n.y + n.z * n.z;
    assert(n.dot_spec(w) == nn + nu) by (nonlinear_arith)
        requires
            w.x == n.x + u.x,
            w.y == n.y + u.y,
            w.z == n.z + u.z,
            nn == norm2(n),
            nu == n.dot_spec(u);
}

/// Largest index of refraction accepted, in thousandths.
pub const REF_IDX_MAX: i64 = 1_000_000;

/// The ratio of refractive indices across the surface as `(num, den)`:
/// entering the medium through its front face divides by the index.
pub open spec fn eta(front_face: bool, ref_idx: int) -> (int, int) {
    if front_face {
        (UNIT as int, ref_idx)
    } else {
        (ref_idx, UNIT as int)
    }
}

/// Cosine of the angle of incidence, scaled by `UNIT` and capped at 1.
pub open spec fn cos_in(uv: Vec3, n: Vec3) -> int {
    let c = -uv.dot_spec(n);
    (if c < UNIT * UNIT { c } else { UNIT * UNIT }) / (UNIT as int)
}

pub open spec fn pow5(x: int) -> int {
    x * x * x * x * x
}

/// Snell's law has no solution: `eta * sin > 1`, squared.
pub open spec fn total_internal(rn: int, rd: int, c: int) -> bool {
    rn * rn * (UNIT * UNIT - c * c) > rd * rd * (UNIT * UNIT)
}

/// Numerator of Schlick's reflectance `r0 + (1 - r0)(1 - cos)^5` with
/// `r0 = ((1 - eta) / (1 + eta))^2`, over `schlick_den`.
pub open spec fn schlick_num(rn: int, rd: int, c: int) -> int {
    (rd - rn) * (rd - rn) * pow5(UNIT as int) + ((rd + rn) * (rd + rn) - (rd - rn) * (rd - rn))
        * pow5(UNIT - c)
}

pub open spec fn schlick_den(rn: int, rd: int) -> int {
    (rd + rn) * (rd + rn) * pow5(UNIT as int)
}

/// The dielectric reflects rather than refracts: total internal reflection,
/// or the uniform draw falls below the reflectance.
pub open spec fn reflects(rn: int, rd: int, c: int, draw: int) -> bool {
    total_internal(rn, rd, c) || draw * schlick_den(rn, rd) < schlick_num(rn, rd, c) * UNIT
}

/// The perpendicular part of the refracted direction, scaled by `rd UNIT^2`:
/// `rn (UNIT uv + c n)`.
pub open spec fn refract_perp(uv: Vec3, n: Vec3, rn: int, c: int) -> (int, int, int) {
    (rn * (UNIT * uv.x + c * n.x), rn * (UNIT * uv.y + c * n.y), rn * (UNIT * uv.z + c * n.z))
}

/// The refracted direction, scaled by `rd UNIT^3`: the perpendicular part
/// plus `-sqrt(|1 - |perp|^2|)` times the normal.
pub open spec fn refract_dir(uv: Vec3, n: Vec3, rn: int, rd: int, c: int) -> Vec3 {
    let (px, py, pz) = refract_perp(uv, n, rn, c);
    let sc = rd * (UNIT * UNIT);
    let q = sc * sc - (px * px + py * py + pz * pz);
    let k = floor_sqrt(if q >= 0 { q } else { -q });
    Vec3 {
        x: (UNIT * px - k * n.x) as i64,
        y: (UNIT * py - k * n.y) as i64,
        z: (UNIT * pz - k * n.z) as i64,
    }
}

/// The direction a dielectric sends the ray on.
pub open spec fn dielectric_dir(uv: Vec3, n: Vec3, front_face: bool, ref_idx: int, draw: int) -> Vec3 {
    let (rn, rd) = eta(front_face, ref_idx);
    let c = cos_in(uv, n);
    if reflects(rn, rd, c, draw) {
        metal_dir(uv, n, 0, uv)
    } else {
        refract_dir(uv, n, rn, rd, c)
    }
}

impl Dielectric {
    /// Reflects or refracts `dir_in` (unit-scaled) at the surface; never
    /// absorbs, and attenuates nothing.
    pub fn scatter(&self, dir_in: &Vec3, hit: &SurfaceHit, draws: &Draws) -> (s: Scattered)
        requires
            unit_scaled(*dir_in),
            unit_scaled(hit.normal),
            dir_in.dot_spec(hit.normal) <= 0,
            0 <= draws.uniform < UNIT,
            0 < self.ref_idx <= REF_IDX_MAX,
        ensures
            s.attenuation == (Vec3 { x: COLOR_ONE, y: COLOR_ONE, z: COLOR_ONE }),
            s.ray.origin == hit.point,
            s.ray.time == 0,
            s.ray.dir == dielectric_dir(
                *dir_in,
                hit.normal,
                hit.front_face,
                self.ref_idx as int,
                draws.uniform as int,
            ),
    {
        let uv = *dir_in;
        let n = hit.normal;
        let (rn, rd): (i128, i128) = if hit.front_face {
            (UNIT as i128, self.ref_idx as i128)
        } else {
            (self.ref_idx as i128, UNIT as i128)
        };
        proof {
            lemma_unit_dot(uv, n);
        }
        let neg = -(uv.x * n.x + uv.y * n.y + uv.z * n.z);
        let capped = if neg < UNIT * UNIT { neg } else { UNIT * UNIT };
        let c = (capped / UNIT) as i128;
        assert(c == cos_in(uv, n));
        assert(0 <= c <= 1000);
        let u = UNIT as i128;
        let omc = u - c;
        assert(0 <= omc * omc * omc * omc * omc <= 1_000_000_000_000_000) by (nonlinear_arith)
            requires 0 <= omc <= 1000;
        let u5: i128 = 1_000_000_000_000_000;
        assert(u5 == pow5(UNIT as int));
        proof {
            lemma_mul_bound((rd + rn) as int, (rd + rn) as int, 2_000_000, 2_000_000);
            lemma_mul_bound((rd - rn) as int, (rd - rn) as int, 2_000_000, 2_000_000);
        }
        let sum2 = (rd + rn) * (rd + rn);
        let dif2 = (rd - rn) * (rd - rn);
        assert(0 <= dif2 <= sum2 <= 4_000_000_000_000) by (nonlinear_arith)
            requires
                0 < rd <= 1_000_000,
                0 < rn <= 1_000_000,
                sum2 == (rd + rn) * (rd + rn),
                dif2 == (rd - rn) * (rd - rn);
        assert(0 <= omc * omc <= 1_000_000) by (nonlinear_arith)
            requires 0 <= omc <= 1000;
        assert(0 <= omc * omc * omc <= 1_000_000_000) by (nonlinear_arith)
            requires 0 <= omc <= 1000, 0 <= omc * omc <= 1_000_000;
        assert(0 <= omc * omc * omc * omc <= 1_000_000_000_000) by (nonlinear_arith)
            requires 0 <= omc <= 1000, 0 <= omc * omc * omc <= 1_000_000_000;
        let p5 = omc * omc * omc * omc * omc;
        proof {
            lemma_mul_bound(dif2 as int, u5 as int, 4_000_000_000_000, u5 as int);
            lemma_mul_bound((sum2 - dif2) as int, p5 as int, 4_000_000_000_000, u5 as int);
            lemma_mul_bound(sum2 as int, u5 as int, 4_000_000_000_000, u5 as int);
        }
        let num = dif2 * u5 + (sum2 - dif2) * p5;
        let den = sum2 * u5;
        proof {
            lemma_mul_bound(num as int, u as int, 8_000_000_000_000_000_000_000_000_000, 1000);
            lemma_mul_bound(draws.uniform as int, den as int, 1000, 4_000_000_000_000_000_000_000_000_000);
            lemma_mul_bound(rn as int, rn as int, 1_000_000, 1_000_000);
            lemma_mul_bound(rd as int, rd as int, 1_000_000, 1_000_000);
            lemma_mul_bound(c as int, c as int, 1000, 1000);
            lemma_mul_bound((rn * rn) as int, (u * u - c * c) as int, 1_000_000_000_000, 1_000_000);
            lemma_mul_bound((rd * rd) as int, (u * u) as int, 1_000_000_000_000, 1_000_000);
        }
        let tir = rn * rn * (u * u - c * c) > rd * rd * (u * u);
        let refl = tir || (draws.uniform as i128) * den < num * u;
        assert(refl == reflects(rn as int, rd as int, c as int, draws.uniform as int));
        let dir = if refl {
            proof {
                lemma_unit_dot(uv, n);
            }
            let vn = uv.x * n.x + uv.y * n.y + uv.z * n.z;
            proof {
                let uu = UNIT as int;
                lemma_mul_bound(vn as int, n.x as int, 3_000_000, uu);
                lemma_mul_bound(vn as int, n.y as int, 3_000_000, uu);
                lemma_mul_bound(vn as int, n.z as int, 3_000_000, uu);
                lemma_mul_bound(uu * uu, uv.x as int, uu * uu, uu);
                lemma_mul_bound(uu * uu, uv.y as int, uu * uu, uu);
                lemma_mul_bound(uu * uu, uv.z as int, uu * uu, uu);
            }
            let d = Vec3 {
                x: UNIT * UNIT * uv.x - 2 * (vn * n.x),
                y: UNIT * UNIT * uv.y - 2 * (vn * n.y),
                z: UNIT * UNIT * uv.z - 2 * (vn * n.z),
            };
            assert(d == metal_dir(uv, n, 0, uv)) by (nonlinear_arith)
                requires
                    d.x == UNIT * UNIT * uv.x - 2 * (vn * n.x),
                    d.y == UNIT * UNIT * uv.y - 2 * (vn * n.y),
                    d.z == UNIT * UNIT * uv.z - 2 * (vn * n.z),
                    vn == uv.dot_spec(n);
            d
        } else {
            refract(&uv, &n, rn, rd, c)
        };
        Scattered {
            attenuation: Vec3 { x: COLOR_ONE, y: COLOR_ONE, z: COLOR_ONE },
            ray: Ray { origin: hit.point, dir, time: 0 },
        }
    }
}

/// Snell's law in unit-scaled arithmetic; see `refract_dir`.
fn refract(uv: &Vec3, n: &Vec3, rn: i128, rd: i128, c: i128) -> (d: Vec3)
    requires
        unit_scaled(*uv),
        unit_scaled(*n),
        0 < rn <= REF_IDX_MAX,
        0 < rd <= REF_IDX_MAX,
        0 <= c <= UNIT,
    ensures
        d == refract_dir(*uv, *n, rn as int, rd as int, c as int),
{
    let u = UNIT as i128;
    proof {
        let uu = UNIT as int;
        lemma_mul_bound(uu, uv.x as int, uu, uu);
        lemma_mul_bound(uu, uv.y as int, uu, uu);
        lemma_mul_bound(uu, uv.z as int, uu, uu);
        lemma_mul_bound(c as int, n.x as int, uu, uu);
        lemma_mul_bound(c as int, n.y as int, uu, uu);
        lemma_mul_bound(c as int, n.z as int, uu, uu);
    }
    let ax = u * (uv.x as i128) + c * (n.x as i128);
    let ay = u * (uv.y as i128) + c * (n.y as i128);
    let az = u * (uv.z as i128) + c * (n.z as i128);
    proof {
        lemma_mul_bound(rn as int, ax as int, 1_000_000, 2_000_000);
        lemma_mul_bound(rn as int, ay as int, 1_000_000, 2_000_000);
        lemma_mul_bound(rn as int, az as int, 1_000_000, 2_000_000);
    }
    let px = rn * ax;
    let py = rn * ay;
    let pz = rn * az;
    assert((px as int, py as int, pz as int) == refract_perp(*uv, *n, rn as int, c as int));
    proof {
        lemma_mul_bound(rd as int, (u * u) as int, 1_000_000, 1_000_000);
    }
    let sc = rd * (u * u);
    proof {
        lemma_mul_bound(px as int, px as int, 2_000_000_000_000, 2_000_000_000_000);
        lemma_mul_bound(py as int, py as int, 2_000_000_000_000, 2_000_000_000_000);
        lemma_mul_bound(pz as int, pz as int, 2_000_000_000_000, 2_000_000_000_000);
        lemma_mul_bound(sc as int, sc as int, 1_000_000_000_000, 1_000_000_000_000);
    }
    let q = sc * sc - (px * px + py * py + pz * pz);
    let aq = if q >= 0 { q } else { -q };
    let k = isqrt(aq);
    assert(k <= 4_000_000_000_000) by (nonlinear_arith)
        requires
            0 <= k,
            k * k <= aq,
            aq <= 13_000_000_000_000_000_000_000_000;
    proof {
        lemma_mul_bound(u as int, px as int, 1000, 2_000_000_000_000);
        lemma_mul_bound(u as int, py as int, 1000, 2_000_000_000_000);
        lemma_mul_bound(u as int, pz as int, 1000, 2_000_000_000_000);
        lemma_mul_bound(k as int, n.x as int, 4_000_000_000_000, 1000);
        lemma_mul_bound(k as int, n.y as int, 4_000_000_000_000, 1000);
        lemma_mul_bound(k as int, n.z as int, 4_000_000_000_000, 1000);
    }
    Vec3 {
        x: (u * px - k * (n.x as i128)) as i64,
        y: (u * py - k * (n.y as i128)) as i64,
        z: (u * pz - k * (n.z as i128)) as i64,
    }
}

/// A medium whose index is 1 does not bend light: at normal incidence the
/// ray goes on in its own direction (scaled by `UNIT^3`), whichever side it
/// came from and whatever was drawn.
pub proof fn lemma_index_one_goes_straight(uv: Vec3, front_face: bool, draw: int)
    requires
        unit_scaled(uv),
        norm2(uv) == UNIT * UNIT,
        0 <= draw < UNIT,
    ensures
        dielectric_dir(
            uv,
            Vec3 { x: (-uv.x) as i64, y: (-uv.y) as i64, z: (-uv.z) as i64 },
            front_face,
            UNIT as int,
            draw,
        ) == (Vec3 {
            x: (UNIT * UNIT * UNIT * uv.x) as i64,
            y: (UNIT * UNIT * UNIT * uv.y) as i64,
            z: (UNIT * UNIT * UNIT * uv.z) as i64,
        }),
{
    let n = Vec3 { x: (-uv.x) as i64, y: (-uv.y) as i64, z: (-uv.z) as i64 };
    let uu = UNIT as int;
    assert(uv.dot_spec(n) == -norm2(uv)) by (nonlinear_arith)
        requires n.x == -uv.x, n.y == -uv.y, n.z == -uv.z;
    assert(cos_in(uv, n) == uu);
    assert(eta(front_face, uu) == (uu, uu));
    assert(!total_internal(uu, uu, uu));
    assert(pow5(0) == 0);
    assert((uu - uu) * (uu - uu) == 0);
    assert(pow5(UNIT - uu) == 0);
    assert(schlick_num(uu, uu, uu) == 0 * pow5(uu) + ((uu + uu) * (uu + uu) - 0) * 0);
    assert(!reflects(uu, uu, uu, draw));
    assert(refract_perp(uv, n, uu, uu) == (0int, 0int, 0int));
    let sc = uu * (uu * uu);
    assert(sc * sc - 0 == sc * sc);
    lemma_floor_sqrt_square(sc);
}

/// Parameters a material can scatter with.
pub open spec fn material_ok(m: Material) -> bool {
    match m {
        Material::Lambertian(_) => true,
        Material::Metal(mm) => 0 <= mm.fuzz <= COLOR_ONE,
        Material::Dielectric(d) => 0 < d.ref_idx <= REF_IDX_MAX,
    }
}

/// The draws are of the shape their names promise.
pub open spec fn draws_ok(d: Draws) -> bool {
    unit_scaled(d.on_sphere) && unit_scaled(d.in_ball) && 0 <= d.uniform < UNIT
}

/// What a material does with a ray arriving along `dir_in` at `hit`:
/// `None` where it absorbs the ray.
pub open spec fn scatter_spec(m: Material, dir_in: Vec3, hit: SurfaceHit, d: Draws) -> Option<Scattered> {
    match m {
        Material::Lambertian(l) => Some(
            Scattered {
                attenuation: l.albedo,
                ray: Ray { origin: hit.point, dir: lambertian_dir(hit.normal, d.on_sphere), time: 0 },
            },
        ),
        Material::Metal(mm) => {
            let dir = metal_dir(dir_in, hit.normal, mm.fuzz as int, d.in_ball);
            if dir.dot_spec(hit.normal) <= 0 {
                None
            } else {
                Some(Scattered { attenuation: mm.albedo, ray: Ray { origin: hit.point, dir, time: 0 } })
            }
        },
        Material::Dielectric(dd) => Some(
            Scattered {
                attenuation: Vec3 { x: COLOR_ONE, y: COLOR_ONE, z: COLOR_ONE },
                ray: Ray {
                    origin: hit.point,
                    dir: dielectric_dir(dir_in, hit.normal, hit.front_face, dd.ref_idx as int, d.uniform as int),
                    time: 0,
                },
            },
        ),
    }
}

impl Material {
    /// Scatters a ray arriving along `dir_in` (unit-scaled) at `hit`, using
    /// `draws` for its random choices; `None` where the surface absorbs it.
    pub fn scatter(&self, dir_in: &Vec3, hit: &SurfaceHit, draws: &Draws) -> (s: Option<Scattered>)
        requires
            material_ok(*self),
            draws_ok(*draws),
            unit_scaled(*dir_in),
            unit_scaled(hit.normal),
            dir_in.dot_spec(hit.normal) <= 0,
        ensures
            s == scatter_spec(*self, *dir_in, *hit, *draws),
    {
        match self {
            Material::Lambertian(l) => Some(l.scatter(hit, draws)),
            Material::Metal(m) => m.scatter(dir_in, hit, draws),
            Material::Dielectric(d) => Some(d.scatter(dir_in, hit, draws)),
        }
    }
}

} // verus!
