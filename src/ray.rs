use vstd::prelude::*;
use crate::vec3::{Point3, Vec3};

verus! {

/// The half-line `origin + t * dir`, stamped with a shutter time.
#[derive(Clone, Copy, Debug, PartialEq, Eq)]
pub struct Ray {
    pub origin: Point3,
    pub dir: Vec3,
    pub time: i64,
}

impl Ray {
    pub open spec fn wf(self) -> bool {
        self.origin.wf() && self.dir.wf()
    }

    pub fn new(origin: Point3, dir: Vec3, time: i64) -> (r: Ray)
        ensures
            r.origin == origin,
            r.dir == dir,
            r.time == time,
    {
        Ray { origin, dir, time }
    }
}

} // verus!
