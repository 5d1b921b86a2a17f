use vstd::prelude::*;
use crate::aabb::Aabb;
use crate::frac::Frac;
use crate::hittable::{HitRecord, hit_ok};
use crate::material::Material;
use crate::ray::Ray;
use crate::sphere::Sphere;
use crate::vec3::Point3;

verus! {

/// Any primitive the scene can hold.
#[derive(Clone, Copy, Debug, PartialEq, Eq)]
pub enum Shape {
    Sphere(Sphere),
}

impl Shape {
    pub open spec fn wf(self) -> bool {
        match self {
            Shape::Sphere(s) => s.wf(),
        }
    }

    pub open spec fn hit_spec(self, r: Ray, t_min: Frac, t_max: Frac) -> Option<HitRecord> {
        match self {
            Shape::Sphere(s) => s.hit_spec(r, t_min, t_max),
        }
    }

    pub open spec fn material(self) -> Material {
        match self {
            Shape::Sphere(s) => s.material,
        }
    }

    pub open spec fn box_spec(self) -> Aabb {
        match self {
            Shape::Sphere(s) => s.box_spec(),
        }
    }

    pub fn new_sphere(center: Point3, radius: i64, material: Material) -> (r: Shape)
        ensures
            r == Shape::Sphere(Sphere { center, radius, material }),
    {
        Shape::Sphere(Sphere::new(center, radius, material))
    }

    pub fn hit(&self, r: &Ray, t_min: &Frac, t_max: &Frac) -> (res: Option<HitRecord>)
        requires
            self.wf(),
            r.wf(),
            t_min.wf(),
            t_max.wf(),
        ensures
            res == self.hit_spec(*r, *t_min, *t_max),
            hit_ok(res),
    {
        match self {
            Shape::Sphere(s) => s.hit(r, t_min, t_max),
        }
    }

    pub fn bounding_box(&self) -> (b: Aabb)
        requires
            self.wf(),
        ensures
            b == self.box_spec(),
            b.wf(),
    {
        match self {
            Shape::Sphere(s) => s.bounding_box(),
        }
    }
}

} // verus!
