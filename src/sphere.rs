use vstd::prelude::*;
use crate::aabb::Aabb;
use crate::frac::{Frac, FRAC_MAX, lemma_le_lt_trans, lemma_le_trans, lemma_lt_le_trans, lemma_lt_total};
use crate::hittable::{HitRecord, facing_normal, is_front, hit_ok};
use crate::isqrt::{floor_sqrt, isqrt, lemma_floor_sqrt_exists, lemma_floor_sqrt_square};
use crate::material::Material;
use crate::ray::Ray;
use crate::vec3::{Point3, Vec3, WideVec, COORD_MAX};

verus! {

/// A ball given by its center and radius.
#[derive(Clone, Copy, Debug, PartialEq, Eq)]
pub struct Sphere {
    pub center: Point3,
    pub radius: i64,
    pub material: Material,
}

/// `|x * y| <= bx * by` when `|x| <= bx` and `|y| <= by`.
pub proof fn lemma_mul_bound(x: int, y: int, bx: int, by: int)
    requires
        -bx <= x <= bx,
        -by <= y <= by,
    ensures
        -(bx * by) <= x * y <= bx * by,
{
    assert(-(bx * by) <= x * y <= bx * by) by (nonlinear_arith)
        requires -bx <= x <= bx, -by <= y <= by;
}

/// `t_min <= t <= t_max`.
pub open spec fn in_range(t: Frac, t_min: Frac, t_max: Frac) -> bool {
    t_min.le(t) && t.le(t_max)
}

impl Sphere {
    /// The whole ball, and so its bounding box, lies within the coordinate range.
    pub open spec fn wf(self) -> bool {
        &&& 0 < self.radius
        &&& -COORD_MAX <= self.center.x - self.radius
        &&& self.center.x + self.radius <= COORD_MAX
        &&& -COORD_MAX <= self.center.y - self.radius
        &&& self.center.y + self.radius <= COORD_MAX
        &&& -COORD_MAX <= self.center.z - self.radius
        &&& self.center.z + self.radius <= COORD_MAX
    }

    /// Origin minus center, on each axis.
    pub open spec fn oc(self, r: Ray) -> (int, int, int) {
        (
            r.origin.x - self.center.x,
            r.origin.y - self.center.y,
            r.origin.z - self.center.z,
        )
    }

    /// Quadratic coefficient `|D|^2`.
    pub open spec fn qa(r: Ray) -> int {
        r.dir.dot_spec(r.dir)
    }

    /// Half the linear coefficient, `(O - C) . D`.
    pub open spec fn qhb(self, r: Ray) -> int {
        let (x, y, z) = self.oc(r);
        x * r.dir.x + y * r.dir.y + z * r.dir.z
    }

    /// Constant coefficient `|O - C|^2 - radius^2`.
    pub open spec fn qc(self, r: Ray) -> int {
        let (x, y, z) = self.oc(r);
        x * x + y * y + z * z - self.radius * self.radius
    }

    /// Quarter discriminant of `|O + tD - C|^2 = radius^2`.
    pub open spec fn disc(self, r: Ray) -> int {
        self.qhb(r) * self.qhb(r) - Self::qa(r) * self.qc(r)
    }

    /// The nearer root, with the square root taken to the floor.
    pub open spec fn near_root(self, r: Ray) -> Frac {
        Frac {
            num: (-self.qhb(r) - floor_sqrt(self.disc(r))) as i128,
            den: Self::qa(r) as i128,
        }
    }

    /// The farther root, with the square root taken to the floor.
    pub open spec fn far_root(self, r: Ray) -> Frac {
        Frac {
            num: (-self.qhb(r) + floor_sqrt(self.disc(r))) as i128,
            den: Self::qa(r) as i128,
        }
    }

    /// The parameter at which the ray is reported to strike the sphere: the
    /// nearer root if it lies in `[t_min, t_max]`, else the farther one if
    /// that does, else none. A ray that does not move never strikes.
    pub open spec fn hit_t(self, r: Ray, t_min: Frac, t_max: Frac) -> Option<Frac> {
        if Self::qa(r) == 0 || self.disc(r) < 0 {
            None
        } else if in_range(self.near_root(r), t_min, t_max) {
            Some(self.near_root(r))
        } else if in_range(self.far_root(r), t_min, t_max) {
            Some(self.far_root(r))
        } else {
            None
        }
    }

    /// The outward normal at parameter `t`, scaled by `t.den`:
    /// `(O - C) * t.den + D * t.num`.
    pub open spec fn outward_at(self, r: Ray, t: Frac) -> WideVec {
        let (x, y, z) = self.oc(r);
        WideVec {
            x: (x * t.den + t.num * r.dir.x) as i128,
            y: (y * t.den + t.num * r.dir.y) as i128,
            z: (z * t.den + t.num * r.dir.z) as i128,
        }
    }

    /// The record of a hit at parameter `t`.
    pub open spec fn record_at(self, r: Ray, t: Frac) -> HitRecord {
        HitRecord {
            t,
            normal: facing_normal(r, self.outward_at(r, t)),
            material: self.material,
            front_face: is_front(r, self.outward_at(r, t)),
        }
    }

    /// The full result of an intersection test.
    pub open spec fn hit_spec(self, r: Ray, t_min: Frac, t_max: Frac) -> Option<HitRecord> {
        match self.hit_t(r, t_min, t_max) {
            None => None,
            Some(t) => Some(self.record_at(r, t)),
        }
    }

    /// The box from `center - radius` to `center + radius`.
    pub open spec fn box_spec(self) -> Aabb {
        Aabb::Span {
            lo: Vec3 {
                x: (self.center.x - self.radius) as i64,
                y: (self.center.y - self.radius) as i64,
                z: (self.center.z - self.radius) as i64,
            },
            hi: Vec3 {
                x: (self.center.x + self.radius) as i64,
                y: (self.center.y + self.radius) as i64,
                z: (self.center.z + self.radius) as i64,
            },
        }
    }

    pub fn new(center: Point3, radius: i64, material: Material) -> (s: Sphere)
        ensures
            s.center == center,
            s.radius == radius,
            s.material == material,
    {
        Sphere { center, radius, material }
    }

    pub fn bounding_box(&self) -> (b: Aabb)
        requires
            self.wf(),
        ensures
            b == self.box_spec(),
            b.wf(),
    {
        let c = self.center;
        let rad = self.radius;
        Aabb::Span {
            lo: Vec3 { x: c.x - rad, y: c.y - rad, z: c.z - rad },
            hi: Vec3 { x: c.x + rad, y: c.y + rad, z: c.z + rad },
        }
    }

    /// Bounds on the coefficients of the intersection quadratic.
    proof fn lemma_coeff_bounds(self, r: Ray)
        requires
            self.wf(),
            r.wf(),
        ensures
            0 <= Self::qa(r) <= 750_000_000_000_000_000,
            -1_500_000_000_000_000_000 <= self.qhb(r) <= 1_500_000_000_000_000_000,
            -3_000_000_000_000_000_000 <= self.qc(r) <= 3_000_000_000_000_000_000,
            -2_250_000_000_000_000_000_000_000_000_000_000_000 <= self.disc(r)
                <= 4_500_000_000_000_000_000_000_000_000_000_000_000,
    {
        let (x, y, z) = self.oc(r);
        let d = r.dir;
        lemma_mul_bound(x, d.x as int, 1_000_000_000, 500_000_000);
        lemma_mul_bound(y, d.y as int, 1_000_000_000, 500_000_000);
        lemma_mul_bound(z, d.z as int, 1_000_000_000, 500_000_000);
        assert(0 <= d.x * d.x <= 250_000_000_000_000_000) by (nonlinear_arith)
            requires -500_000_000 <= d.x <= 500_000_000;
        assert(0 <= d.y * d.y <= 250_000_000_000_000_000) by (nonlinear_arith)
            requires -500_000_000 <= d.y <= 500_000_000;
        assert(0 <= d.z * d.z <= 250_000_000_000_000_000) by (nonlinear_arith)
            requires -500_000_000 <= d.z <= 500_000_000;
        assert(0 <= x * x <= 1_000_000_000_000_000_000) by (nonlinear_arith)
            requires -1_000_000_000 <= x <= 1_000_000_000;
        assert(0 <= y * y <= 1_000_000_000_000_000_000) by (nonlinear_arith)
            requires -1_000_000_000 <= y <= 1_000_000_000;
        assert(0 <= z * z <= 1_000_000_000_000_000_000) by (nonlinear_arith)
            requires -1_000_000_000 <= z <= 1_000_000_000;
        assert(0 <= self.radius * self.radius <= 250_000_000_000_000_000) by (nonlinear_arith)
            requires 0 < self.radius <= 500_000_000;
        let hb = self.qhb(r);
        let a = Self::qa(r);
        let c = self.qc(r);
        assert(0 <= hb * hb <= 2_250_000_000_000_000_000_000_000_000_000_000_000) by (
        nonlinear_arith)
            requires -1_500_000_000_000_000_000 <= hb <= 1_500_000_000_000_000_000;
        lemma_mul_bound(a, c, 750_000_000_000_000_000, 3_000_000_000_000_000_000);
    }

    /// A reported parameter is a well-formed fraction.
    pub proof fn lemma_hit_wf(self, r: Ray, t_min: Frac, t_max: Frac)
        requires
            self.wf(),
            r.wf(),
        ensures
            hit_ok(self.hit_spec(r, t_min, t_max)),
    {
        if Self::qa(r) != 0 && self.disc(r) >= 0 {
            self.lemma_coeff_bounds(r);
            lemma_floor_sqrt_exists(self.disc(r));
            let s = floor_sqrt(self.disc(r));
            let disc = self.disc(r);
            assert(s < 2_200_000_000_000_000_000) by (nonlinear_arith)
                requires
                    0 <= s,
                    s * s <= disc,
                    disc <= 4_500_000_000_000_000_000_000_000_000_000_000_000;
            match self.hit_t(r, t_min, t_max) {
                Some(t) => {
                    let (x, y, z) = self.oc(r);
                    let a = 750_000_000_000_000_000int;
                    let b = 3_700_000_000_000_000_000int;
                    lemma_mul_bound(x, t.den as int, 1_000_000_000, a);
                    lemma_mul_bound(y, t.den as int, 1_000_000_000, a);
                    lemma_mul_bound(z, t.den as int, 1_000_000_000, a);
                    lemma_mul_bound(t.num as int, r.dir.x as int, b, 500_000_000);
                    lemma_mul_bound(t.num as int, r.dir.y as int, b, 500_000_000);
                    lemma_mul_bound(t.num as int, r.dir.z as int, b, 500_000_000);
                },
                None => {},
            }
        }
    }

    /// Intersects `r` with the sphere, within `[t_min, t_max]`.
    pub fn hit(&self, r: &Ray, t_min: &Frac, t_max: &Frac) -> (res: Option<HitRecord>)
        requires
            self.wf(),
            r.wf(),
            t_min.wf(),
            t_max.wf(),
        ensures
            res == self.hit_spec(*r, *t_min, *t_max),
            hit_ok(res),
    {
        proof {
            self.lemma_coeff_bounds(*r);
        }
        let ox = (r.origin.x - self.center.x) as i128;
        let oy = (r.origin.y - self.center.y) as i128;
        let oz = (r.origin.z - self.center.z) as i128;
        let dx = r.dir.x as i128;
        let dy = r.dir.y as i128;
        let dz = r.dir.z as i128;
        let rad = self.radius as i128;
        proof {
            let cm = COORD_MAX as int;
            lemma_mul_bound(dx as int, dx as int, cm, cm);
            lemma_mul_bound(dy as int, dy as int, cm, cm);
            lemma_mul_bound(dz as int, dz as int, cm, cm);
            lemma_mul_bound(ox as int, dx as int, 2 * cm, cm);
            lemma_mul_bound(oy as int, dy as int, 2 * cm, cm);
            lemma_mul_bound(oz as int, dz as int, 2 * cm, cm);
            lemma_mul_bound(ox as int, ox as int, 2 * cm, 2 * cm);
            lemma_mul_bound(oy as int, oy as int, 2 * cm, 2 * cm);
            lemma_mul_bound(oz as int, oz as int, 2 * cm, 2 * cm);
            lemma_mul_bound(rad as int, rad as int, cm, cm);
        }
        let a = dx * dx + dy * dy + dz * dz;
        let hb = ox * dx + oy * dy + oz * dz;
        let c = ox * ox + oy * oy + oz * oz - rad * rad;
        assert(a == Self::qa(*r));
        assert(hb == self.qhb(*r));
        assert(c == self.qc(*r));
        proof {
            lemma_mul_bound(hb as int, hb as int, 1_500_000_000_000_000_000, 1_500_000_000_000_000_000);
            lemma_mul_bound(a as int, c as int, 750_000_000_000_000_000, 3_000_000_000_000_000_000);
        }
        let disc = hb * hb - a * c;
        if a == 0 || disc < 0 {
            return None;
        }
        let s = isqrt(disc);
        assert(s < 2_200_000_000_000_000_000) by (nonlinear_arith)
            requires
                0 <= s,
                s * s <= disc,
                disc <= 4_500_000_000_000_000_000_000_000_000_000_000_000;
        let near = Frac::new(-hb - s, a);
        let far = Frac::new(-hb + s, a);
        assert(near == self.near_root(*r));
        assert(far == self.far_root(*r));
        let t = if !near.less_than(t_min) && !t_max.less_than(&near) {
            near
        } else if !far.less_than(t_min) && !t_max.less_than(&far) {
            far
        } else {
            return None;
        };
        proof {
            lemma_mul_bound(ox as int, a as int, 1_000_000_000, 750_000_000_000_000_000);
            lemma_mul_bound(oy as int, a as int, 1_000_000_000, 750_000_000_000_000_000);
            lemma_mul_bound(oz as int, a as int, 1_000_000_000, 750_000_000_000_000_000);
            lemma_mul_bound(t.num as int, dx as int, 3_700_000_000_000_000_000, 500_000_000);
            lemma_mul_bound(t.num as int, dy as int, 3_700_000_000_000_000_000, 500_000_000);
            lemma_mul_bound(t.num as int, dz as int, 3_700_000_000_000_000_000, 500_000_000);
        }
        let outward = WideVec {
            x: ox * t.den + t.num * dx,
            y: oy * t.den + t.num * dy,
            z: oz * t.den + t.num * dz,
        };
        assert(outward == self.outward_at(*r, t));
        let mut rec = HitRecord::new(self.material);
        rec.t = t;
        rec.set_face_normal(r, &outward);
        Some(rec)
    }
}

/// The rational `n / k`.
pub open spec fn axis_frac(n: int, k: int) -> Frac {
    Frac { num: n as i128, den: k as i128 }
}

/// The sphere reports a hit at a parameter equal to `t`.
pub open spec fn reports(s: Sphere, r: Ray, t_min: Frac, t_max: Frac, t: Frac) -> bool {
    match s.hit_t(r, t_min, t_max) {
        Some(h) => h.same(t),
        None => false,
    }
}

/// A ray aimed along the x axis at a sphere whose center lies on that axis,
/// at distance `dist` beyond the radius, strikes it at `(dist - radius) / k`
/// on the way in and at `(dist + radius) / k` on the way out, where `k` is
/// the ray's speed.
pub proof fn lemma_axis_hits(s: Sphere, r: Ray, dist: i64, k: i64, t_min: Frac, t_max: Frac)
    requires
        s.wf(),
        r.wf(),
        t_min.wf(),
        t_max.wf(),
        k > 0,
        dist > s.radius,
        r.dir == (Vec3 { x: k, y: 0, z: 0 }),
        s.center.x == r.origin.x + dist,
        s.center.y == r.origin.y,
        s.center.z == r.origin.z,
    ensures
        in_range(axis_frac(dist - s.radius, k as int), t_min, t_max) ==> reports(
            s,
            r,
            t_min,
            t_max,
            axis_frac(dist - s.radius, k as int),
        ),
        axis_frac(dist - s.radius, k as int).lt(t_min) && in_range(
            axis_frac(dist + s.radius, k as int),
            t_min,
            t_max,
        ) ==> reports(s, r, t_min, t_max, axis_frac(dist + s.radius, k as int)),
{
    let rad = s.radius as int;
    let d = dist as int;
    let kk = k as int;
    assert(s.oc(r) == (-d, 0int, 0int));
    assert(Sphere::qa(r) == kk * kk);
    assert(s.qhb(r) == -d * kk);
    assert((-d) * (-d) == d * d) by (nonlinear_arith);
    assert(s.qc(r) == d * d - rad * rad);
    let hb = s.qhb(r);
    let qa = Sphere::qa(r);
    let qc = s.qc(r);
    assert(hb * hb == d * d * (kk * kk)) by (nonlinear_arith)
        requires hb == -d * kk;
    assert(qa * qc == kk * kk * (d * d) - kk * kk * (rad * rad)) by (nonlinear_arith)
        requires qa == kk * kk, qc == d * d - rad * rad;
    assert((kk * rad) * (kk * rad) == kk * kk * (rad * rad)) by (nonlinear_arith);
    assert(d * d * (kk * kk) == kk * kk * (d * d)) by (nonlinear_arith);
    assert(s.disc(r) == (kk * rad) * (kk * rad));
    assert(kk * rad >= 0) by (nonlinear_arith)
        requires kk > 0, rad > 0;
    lemma_floor_sqrt_square(kk * rad);
    s.lemma_coeff_bounds(r);
    assert((-d) * kk == -(d * kk)) by (nonlinear_arith);
    lemma_mul_bound(kk, rad, COORD_MAX as int, COORD_MAX as int);
    assert(floor_sqrt(s.disc(r)) == kk * rad);
    let near = s.near_root(r);
    assert(near.num == d * kk - kk * rad);
    assert(near.den == kk * kk);
    let entry = axis_frac(dist - s.radius, kk);
    assert(near.same(entry)) by (nonlinear_arith)
        requires
            near.num == d * kk - kk * rad,
            near.den == kk * kk,
            entry.num == d - rad,
            entry.den == kk;
    let far = s.far_root(r);
    assert(far.num == d * kk + kk * rad);
    assert(far.den == kk * kk);
    let exit = axis_frac(dist + s.radius, kk);
    assert(far.same(exit)) by (nonlinear_arith)
        requires
            far.num == d * kk + kk * rad,
            far.den == kk * kk,
            exit.num == d + rad,
            exit.den == kk;
    assert(kk * kk > 0) by (nonlinear_arith)
        requires kk > 0;
    if in_range(entry, t_min, t_max) {
        lemma_le_trans(t_min, entry, near);
        lemma_le_trans(near, entry, t_max);
    }
    if entry.lt(t_min) && in_range(exit, t_min, t_max) {
        lemma_le_lt_trans(near, entry, t_min);
        lemma_lt_total(near, t_min);
        lemma_le_trans(t_min, exit, far);
        lemma_le_trans(far, exit, t_max);
    }
}

/// Offset of the point at `t` from the center along axis `k`, scaled by
/// `t.den`.
pub open spec fn offset_at(s: Sphere, r: Ray, t: Frac, k: int) -> int {
    (r.origin.at(k) - s.center.at(k)) * t.den + t.num * r.dir.at(k)
}

/// The square of one scaled offset, expanded.
proof fn lemma_square_sum(den: int, num: int, o: int, d: int)
    ensures
        (o * den + num * d) * (o * den + num * d) == den * den * (o * o) + 2 * ((den * num) * (o
            * d)) + num * num * (d * d),
{
    let x = o * den;
    let y = num * d;
    assert((x + y) * (x + y) == x * x + 2 * (x * y) + y * y) by (nonlinear_arith);
    assert(x * x == den * den * (o * o)) by (nonlinear_arith)
        requires x == o * den;
    assert(x * y == (den * num) * (o * d)) by (nonlinear_arith)
        requires x == o * den, y == num * d;
    assert(y * y == num * num * (d * d)) by (nonlinear_arith)
        requires y == num * d;
}

/// A reported hit lies in the closed ball: the three scaled offsets have
/// squares summing to at most `(den radius)^2`.
proof fn lemma_hit_in_ball(s: Sphere, r: Ray, t_min: Frac, t_max: Frac, t: Frac)
    requires
        s.wf(),
        r.wf(),
        s.hit_t(r, t_min, t_max) == Some(t),
    ensures
        t.den > 0,
        offset_at(s, r, t, 0) * offset_at(s, r, t, 0) + offset_at(s, r, t, 1) * offset_at(s, r, t, 1)
            + offset_at(s, r, t, 2) * offset_at(s, r, t, 2) <= (t.den * s.radius) * (t.den
            * s.radius),
{
    s.lemma_coeff_bounds(r);
    lemma_floor_sqrt_exists(s.disc(r));
    let sq = floor_sqrt(s.disc(r));
    let a = Sphere::qa(r);
    let hb = s.qhb(r);
    let qc = s.qc(r);
    let disc = s.disc(r);
    let rad = s.radius as int;
    assert(sq < 2_200_000_000_000_000_000) by (nonlinear_arith)
        requires
            0 <= sq,
            sq * sq <= disc,
            disc <= 4_500_000_000_000_000_000_000_000_000_000_000_000;
    let den = t.den as int;
    let num = t.num as int;
    assert(den == a);
    assert(num == -hb - sq || num == -hb + sq);
    let (ox, oy, oz) = s.oc(r);
    let (dx, dy, dz) = (r.dir.x as int, r.dir.y as int, r.dir.z as int);
    lemma_square_sum(den, num, ox, dx);
    lemma_square_sum(den, num, oy, dy);
    lemma_square_sum(den, num, oz, dz);
    let e = offset_at(s, r, t, 0) * offset_at(s, r, t, 0) + offset_at(s, r, t, 1) * offset_at(
        s,
        r,
        t,
        1,
    ) + offset_at(s, r, t, 2) * offset_at(s, r, t, 2);
    let d2 = den * den;
    let n2 = num * num;
    let dn = den * num;
    assert(d2 * (ox * ox) + d2 * (oy * oy) + d2 * (oz * oz) == d2 * (ox * ox + oy * oy + oz * oz))
        by (nonlinear_arith);
    assert(dn * (ox * dx) + dn * (oy * dy) + dn * (oz * dz) == dn * hb) by (nonlinear_arith)
        requires hb == ox * dx + oy * dy + oz * dz;
    assert(n2 * (dx * dx) + n2 * (dy * dy) + n2 * (dz * dz) == n2 * a) by (nonlinear_arith)
        requires a == dx * dx + dy * dy + dz * dz;
    assert(e == d2 * (ox * ox + oy * oy + oz * oz) + 2 * (dn * hb) + n2 * a);
    assert(ox * ox + oy * oy + oz * oz == qc + rad * rad);
    assert(num * num + 2 * num * hb == sq * sq - hb * hb) by (nonlinear_arith)
        requires num == -hb - sq || num == -hb + sq;
    let w = num * num + 2 * num * hb;
    assert(d2 * (qc + rad * rad) == a * a * (rad * rad) + a * (a * qc)) by (nonlinear_arith)
        requires den == a, d2 == den * den;
    assert(2 * (dn * hb) + n2 * a == a * w) by (nonlinear_arith)
        requires den == a, w == num * num + 2 * num * hb, dn == den * num, n2 == num * num;
    assert(e == a * a * (rad * rad) + a * (a * qc) + a * w);
    assert(a * (a * qc) + a * w == a * (a * qc + w)) by (nonlinear_arith);
    assert(a * qc + w == sq * sq - disc);
    assert(e == a * a * (rad * rad) + a * (sq * sq - disc));
    assert(a * (sq * sq - disc) <= 0) by (nonlinear_arith)
        requires a > 0, sq * sq <= disc;
    assert((den * rad) * (den * rad) == a * a * (rad * rad)) by (nonlinear_arith)
        requires den == a;
}

/// Slab facts along one axis for a point whose scaled offset from the
/// center `e = oc den + num d` lies within `den rad`.
proof fn lemma_slab_axis(oc: int, d: int, den: int, num: int, rad: int)
    requires
        d != 0,
        den > 0,
        -(den * rad) <= oc * den + num * d <= den * rad,
    ensures
        d > 0 ==> (-oc - rad) * den <= num * d,
        d > 0 ==> num * d <= (rad - oc) * den,
        d > 0 && (-oc - rad) * den == num * d ==> oc * den + num * d == -(den * rad),
        d > 0 && num * d == (rad - oc) * den ==> oc * den + num * d == den * rad,
        d < 0 ==> (oc - rad) * den <= num * -d,
        d < 0 ==> num * -d <= (oc + rad) * den,
        d < 0 && (oc - rad) * den == num * -d ==> oc * den + num * d == den * rad,
        d < 0 && num * -d == (oc + rad) * den ==> oc * den + num * d == -(den * rad),
{
    assert((-oc - rad) * den == -(oc * den) - den * rad) by (nonlinear_arith);
    assert((rad - oc) * den == den * rad - oc * den) by (nonlinear_arith);
    assert((oc - rad) * den == oc * den - den * rad) by (nonlinear_arith);
    assert((oc + rad) * den == oc * den + den * rad) by (nonlinear_arith);
    assert(num * -d == -(num * d)) by (nonlinear_arith);
}

/// The sphere reports a hit strictly inside `(t_min, t_max)`.
pub open spec fn hits_inside(s: Sphere, r: Ray, t_min: Frac, t_max: Frac) -> bool {
    match s.hit_t(r, t_min, t_max) {
        Some(t) => t_min.lt(t) && t.lt(t_max),
        None => false,
    }
}

/// The slab test never prunes a sphere's hit: where the sphere reports a
/// hit strictly inside `(t_min, t_max)`, the ray meets the sphere's bounding
/// box within that interval.
pub proof fn lemma_hit_in_box(s: Sphere, r: Ray, t_min: Frac, t_max: Frac)
    requires
        s.wf(),
        r.wf(),
        t_min.wf(),
        t_max.wf(),
        hits_inside(s, r, t_min, t_max),
    ensures
        s.box_spec().hit_spec(r, t_min, t_max),
{
    let t = s.hit_t(r, t_min, t_max).unwrap();
    s.lemma_hit_wf(r, t_min, t_max);
    lemma_hit_in_ball(s, r, t_min, t_max, t);
    let b = s.box_spec();
    b.lemma_bounds_wf(r, t_min, t_max);
    let den = t.den as int;
    let num = t.num as int;
    let rad = s.radius as int;
    let m = (den * rad) * (den * rad);
    let e0 = offset_at(s, r, t, 0);
    let e1 = offset_at(s, r, t, 1);
    let e2 = offset_at(s, r, t, 2);
    assert(m > 0) by (nonlinear_arith)
        requires den > 0, rad > 0, m == (den * rad) * (den * rad);
    assert(0 <= e0 * e0 && 0 <= e1 * e1 && 0 <= e2 * e2) by (nonlinear_arith);
    assert forall|k: int| 0 <= k < 3 implies -(den * rad) <= #[trigger] offset_at(s, r, t, k) <= den * rad by {
        let e = offset_at(s, r, t, k);
        assert(e * e <= m);
        assert(0 <= den * rad) by (nonlinear_arith)
            requires den > 0, rad > 0;
        assert(-(den * rad) <= e <= den * rad) by (nonlinear_arith)
            requires e * e <= (den * rad) * (den * rad), 0 <= den * rad;
    }
    assert forall|k: int| #![trigger b.lower(r, k, t_min)]
        Aabb::active(r, k) implies b.lower(r, k, t_min).le(t) && (!b.lower(r, k, t_min).lt(t) ==> (
        k < 3 && offset_at(s, r, t, k) * offset_at(s, r, t, k) == m)) by {
        if k < 3 {
            let oc = r.origin.at(k) - s.center.at(k);
            lemma_slab_axis(oc, r.dir.at(k) as int, den, num, rad);
            assert(-(den * rad) * -(den * rad) == m) by (nonlinear_arith)
                requires m == (den * rad) * (den * rad);
        }
    }
    assert forall|k: int| #![trigger b.upper(r, k, t_max)]
        Aabb::active(r, k) implies t.le(b.upper(r, k, t_max)) && (!t.lt(b.upper(r, k, t_max)) ==> (
        k < 3 && offset_at(s, r, t, k) * offset_at(s, r, t, k) == m)) by {
        if k < 3 {
            let oc = r.origin.at(k) - s.center.at(k);
            lemma_slab_axis(oc, r.dir.at(k) as int, den, num, rad);
            assert(-(den * rad) * -(den * rad) == m) by (nonlinear_arith)
                requires m == (den * rad) * (den * rad);
        }
    }
    assert forall|i: int, j: int|
        #![trigger b.lower(r, i, t_min), b.upper(r, j, t_max)]
        Aabb::active(r, i) && Aabb::active(r, j) implies b.lower(r, i, t_min).lt(b.upper(r, j, t_max)) by {
        let (lo, up) = (b.lower(r, i, t_min), b.upper(r, j, t_max));
        if lo.lt(t) {
            lemma_lt_le_trans(lo, t, up);
        } else if t.lt(up) {
            lemma_le_lt_trans(lo, t, up);
        } else if i == j {
            let oc = r.origin.at(i) - s.center.at(i);
            lemma_slab_axis(oc, r.dir.at(i) as int, den, num, rad);
            assert(den * rad > 0) by (nonlinear_arith)
                requires den > 0, rad > 0;
        } else {
            assert(offset_at(s, r, t, i) * offset_at(s, r, t, i) == m);
            assert(offset_at(s, r, t, j) * offset_at(s, r, t, j) == m);
            assert(e0 * e0 + e1 * e1 + e2 * e2 >= 2 * m);
        }
    }
}

/// Narrowing the interval to an upper end beyond the reported hit keeps
/// that hit.
pub proof fn lemma_shrink_interval(s: Sphere, r: Ray, t_min: Frac, t_max: Frac, t_max2: Frac)
    requires
        s.wf(),
        r.wf(),
        t_min.wf(),
        t_max.wf(),
        t_max2.wf(),
        hits_inside(s, r, t_min, t_max),
        s.hit_t(r, t_min, t_max).unwrap().lt(t_max2),
    ensures
        hits_inside(s, r, t_min, t_max2),
        s.hit_t(r, t_min, t_max2) == s.hit_t(r, t_min, t_max),
{
    let t = s.hit_t(r, t_min, t_max).unwrap();
    s.lemma_hit_wf(r, t_min, t_max);
    let (near, far) = (s.near_root(r), s.far_root(r));
    lemma_floor_sqrt_exists(s.disc(r));
    s.lemma_coeff_bounds(r);
    let sq = floor_sqrt(s.disc(r));
    let disc = s.disc(r);
    assert(sq < 2_200_000_000_000_000_000) by (nonlinear_arith)
        requires
            0 <= sq,
            sq * sq <= disc,
            disc <= 4_500_000_000_000_000_000_000_000_000_000_000_000;
    assert(near.num <= far.num);
    assert(near.le(far)) by (nonlinear_arith)
        requires near.num <= far.num, near.den == far.den, near.den > 0;
    lemma_lt_total(t, t_max2);
    if t == far && !in_range(near, t_min, t_max) {
        lemma_le_trans(near, far, t_max);
        lemma_lt_total(near, t_min);
    }
    if t == near {
        lemma_lt_total(t, t_max2);
    }
}

} // verus!
