use vstd::prelude::*;
use crate::vec3::Vec3;

verus! {

/// Channel value that stands for full reflectance (1.0).
pub const COLOR_ONE: i64 = 1000;

/// An RGB triple in thousandths per channel.
pub type Color = Vec3;

/// A diffuse surface.
#[derive(Clone, Copy, Debug, PartialEq, Eq)]
pub struct Lambertian {
    pub albedo: Color,
}

/// A reflective surface; `fuzz` (in thousandths) blurs the reflection.
#[derive(Clone, Copy, Debug, PartialEq, Eq)]
pub struct Metal {
    pub albedo: Color,
    pub fuzz: i64,
}

/// A clear refracting medium; `ref_idx` is the index of refraction in thousandths.
#[derive(Clone, Copy, Debug, PartialEq, Eq)]
pub struct Dielectric {
    pub ref_idx: i64,
}

/// Any of the surface models.
#[derive(Clone, Copy, Debug, PartialEq, Eq)]
pub enum Material {
    Lambertian(Lambertian),
    Metal(Metal),
    Dielectric(Dielectric),
}

/// `fuzz` clamped to `[0, COLOR_ONE]`.
pub open spec fn clamp_fuzz(fuzz: i64) -> i64 {
    if fuzz < 0 {
        0
    } else if fuzz < COLOR_ONE {
        fuzz
    } else {
        COLOR_ONE
    }
}

impl Lambertian {
    pub fn new(albedo: Color) -> (r: Lambertian)
        ensures
            r.albedo == albedo,
    {
        Lambertian { albedo }
    }
}

impl Metal {
    /// A metal whose fuzz is clamped to `[0, 1]`.
    pub fn new(albedo: Color, fuzz: i64) -> (r: Metal)
        ensures
            r.albedo == albedo,
            r.fuzz == clamp_fuzz(fuzz),
    {
        let f = if fuzz < 0 {
            0
        } else if fuzz < COLOR_ONE {
            fuzz
        } else {
            COLOR_ONE
        };
        Metal { albedo, fuzz: f }
    }
}

impl Dielectric {
    pub fn new(ref_idx: i64) -> (r: Dielectric)
        ensures
            r.ref_idx == ref_idx,
    {
        Dielectric { ref_idx }
    }
}

impl Material {
    pub fn new_lambertian(albedo: Color) -> (r: Material)
        ensures
            r == Material::Lambertian(Lambertian { albedo }),
    {
        Material::Lambertian(Lambertian::new(albedo))
    }

    pub fn new_metal(albedo: Color, fuzz: i64) -> (r: Material)
        ensures
            r == Material::Metal(Metal { albedo, fuzz: clamp_fuzz(fuzz) }),
    {
        Material::Metal(Metal::new(albedo, fuzz))
    }

    pub fn new_dielectric(ref_idx: i64) -> (r: Material)
        ensures
            r == Material::Dielectric(Dielectric { ref_idx }),
    {
        Material::Dielectric(Dielectric::new(ref_idx))
    }
}

} // verus!
