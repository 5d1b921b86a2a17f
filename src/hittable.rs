use vstd::prelude::*;
use crate::frac::Frac;
use crate::material::Material;
use crate::ray::Ray;
use crate::vec3::{Vec3, WideVec, COORD_MAX, WIDE_MAX};

verus! {

/// What an intersection test reports: the ray parameter of the hit, the
/// surface normal turned against the ray, which side was struck, and the
/// material of the surface.
#[derive(Clone, Copy, Debug, PartialEq, Eq)]
pub struct HitRecord {
    pub t: Frac,
    pub normal: WideVec,
    pub material: Material,
    pub front_face: bool,
}

/// The ray arrives on the side the outward normal points to.
pub open spec fn is_front(r: Ray, outward: WideVec) -> bool {
    outward.dot_narrow(r.dir) < 0
}

/// The outward normal, turned to face the incoming ray.
pub open spec fn facing_normal(r: Ray, outward: WideVec) -> WideVec {
    if is_front(r, outward) {
        outward
    } else {
        outward.neg_spec()
    }
}

/// A reported hit, if any, carries a well-formed parameter and normal.
pub open spec fn hit_ok(res: Option<HitRecord>) -> bool {
    match res {
        Some(h) => h.t.wf() && h.normal.wf(),
        None => true,
    }
}

impl HitRecord {
    /// A blank record carrying `material`.
    pub fn new(material: Material) -> (r: HitRecord)
        ensures
            r.material == material,
            r.t == (Frac { num: 0, den: 1 }),
            r.normal == (WideVec { x: 0, y: 0, z: 0 }),
            !r.front_face,
    {
        HitRecord { t: Frac { num: 0, den: 1 }, normal: WideVec::zero(), material, front_face: false }
    }

    /// Records which side `r` struck and stores the normal facing the ray.
    pub fn set_face_normal(&mut self, r: &Ray, outward: &WideVec)
        requires
            r.wf(),
            outward.wf(),
        ensures
            final(self).front_face == is_front(*r, *outward),
            final(self).normal == facing_normal(*r, *outward),
            final(self).t == old(self).t,
            final(self).material == old(self).material,
    {
        proof {
            lemma_dot_narrow_bounded(*outward, r.dir);
        }
        let d = outward.x * (r.dir.x as i128) + outward.y * (r.dir.y as i128) + outward.z * (
        r.dir.z as i128);
        self.front_face = d < 0;
        self.normal = if self.front_face {
            *outward
        } else {
            WideVec { x: -outward.x, y: -outward.y, z: -outward.z }
        };
    }
}

/// The dot product of a wide and a narrow vector fits in `i128`.
pub proof fn lemma_dot_narrow_bounded(w: WideVec, v: Vec3)
    requires
        w.wf(),
        v.wf(),
    ensures
        -WIDE_MAX * COORD_MAX <= w.x * v.x <= WIDE_MAX * COORD_MAX,
        -WIDE_MAX * COORD_MAX <= w.y * v.y <= WIDE_MAX * COORD_MAX,
        -WIDE_MAX * COORD_MAX <= w.z * v.z <= WIDE_MAX * COORD_MAX,
{
    assert(-WIDE_MAX * COORD_MAX <= w.x * v.x <= WIDE_MAX * COORD_MAX) by (nonlinear_arith)
        requires w.wf(), v.wf();
    assert(-WIDE_MAX * COORD_MAX <= w.y * v.y <= WIDE_MAX * COORD_MAX) by (nonlinear_arith)
        requires w.wf(), v.wf();
    assert(-WIDE_MAX * COORD_MAX <= w.z * v.z <= WIDE_MAX * COORD_MAX) by (nonlinear_arith)
        requires w.wf(), v.wf();
}

} // verus!
