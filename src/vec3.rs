use vstd::prelude::*;

verus! {

/// Largest magnitude of a coordinate, in the scene's fixed unit.
pub const COORD_MAX: i64 = 500_000_000;

/// A point or a direction with integer coordinates.
#[derive(Clone, Copy, Debug, PartialEq, Eq)]
pub struct Vec3 {
    pub x: i64,
    pub y: i64,
    pub z: i64,
}

/// A position in space.
pub type Point3 = Vec3;

impl Vec3 {
    /// Every coordinate lies in `[-COORD_MAX, COORD_MAX]`.
    pub open spec fn wf(self) -> bool {
        &&& -COORD_MAX <= self.x <= COORD_MAX
        &&& -COORD_MAX <= self.y <= COORD_MAX
        &&& -COORD_MAX <= self.z <= COORD_MAX
    }

    /// The coordinate along axis `i` (0: x, 1: y, 2: z).
    pub open spec fn at(self, i: int) -> i64 {
        if i == 0 {
            self.x
        } else if i == 1 {
            self.y
        } else {
            self.z
        }
    }

    /// Dot product, over unbounded integers.
    pub open spec fn dot_spec(self, o: Vec3) -> int {
        self.x * o.x + self.y * o.y + self.z * o.z
    }

    pub fn new(x: i64, y: i64, z: i64) -> (r: Vec3)
        ensures
            r.x == x,
            r.y == y,
            r.z == z,
    {
        Vec3 { x, y, z }
    }

    /// The coordinate along axis `i`.
    pub fn get(&self, i: usize) -> (r: i64)
        requires
            i < 3,
        ensures
            r == self.at(i as int),
    {
        if i == 0 {
            self.x
        } else if i == 1 {
            self.y
        } else {
            self.z
        }
    }
}

} // verus!

verus! {

/// Largest magnitude of a coordinate of a wide vector.
pub const WIDE_MAX: i128 = 10_000_000_000_000_000_000_000_000_000;

/// A direction with wide integer coordinates, as produced by exact
/// intersection arithmetic; only its direction is meaningful.
#[derive(Clone, Copy, Debug, PartialEq, Eq)]
pub struct WideVec {
    pub x: i128,
    pub y: i128,
    pub z: i128,
}

impl WideVec {
    pub open spec fn wf(self) -> bool {
        &&& -WIDE_MAX <= self.x <= WIDE_MAX
        &&& -WIDE_MAX <= self.y <= WIDE_MAX
        &&& -WIDE_MAX <= self.z <= WIDE_MAX
    }

    /// The same vector pointing the other way.
    pub open spec fn neg_spec(self) -> WideVec {
        WideVec { x: (-self.x) as i128, y: (-self.y) as i128, z: (-self.z) as i128 }
    }

    pub open spec fn dot_narrow(self, v: Vec3) -> int {
        self.x * v.x + self.y * v.y + self.z * v.z
    }

    pub fn zero() -> (r: WideVec)
        ensures
            r.x == 0 && r.y == 0 && r.z == 0,
    {
        WideVec { x: 0, y: 0, z: 0 }
    }
}

} // verus!
