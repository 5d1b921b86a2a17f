use vstd::prelude::*;
use crate::frac::{
    Frac, FRAC_MAX, lemma_le_lt_trans, lemma_le_refl, lemma_lt_le_trans, lemma_lt_total,
};
use crate::ray::Ray;
use crate::vec3::{Vec3, COORD_MAX};

verus! {

/// An axis-aligned bounding box, or the empty box that encloses nothing.
#[derive(Clone, Copy, Debug, PartialEq, Eq)]
pub enum Aabb {
    Empty,
    Span { lo: Vec3, hi: Vec3 },
}

pub open spec fn min_i64(a: i64, b: i64) -> i64 {
    if a <= b { a } else { b }
}

pub open spec fn max_i64(a: i64, b: i64) -> i64 {
    if a >= b { a } else { b }
}

/// Component-wise minimum.
pub open spec fn vmin(a: Vec3, b: Vec3) -> Vec3 {
    Vec3 { x: min_i64(a.x, b.x), y: min_i64(a.y, b.y), z: min_i64(a.z, b.z) }
}

/// Component-wise maximum.
pub open spec fn vmax(a: Vec3, b: Vec3) -> Vec3 {
    Vec3 { x: max_i64(a.x, b.x), y: max_i64(a.y, b.y), z: max_i64(a.z, b.z) }
}

/// `a <= b` on every axis.
pub open spec fn vle(a: Vec3, b: Vec3) -> bool {
    a.x <= b.x && a.y <= b.y && a.z <= b.z
}

impl Aabb {
    /// Corners in range and ordered on every axis.
    pub open spec fn wf(self) -> bool {
        match self {
            Aabb::Empty => true,
            Aabb::Span { lo, hi } => lo.wf() && hi.wf() && vle(lo, hi),
        }
    }

    /// Every point of `inner` lies in `self`.
    pub open spec fn contains(self, inner: Aabb) -> bool {
        match (self, inner) {
            (_, Aabb::Empty) => true,
            (Aabb::Empty, Aabb::Span { .. }) => false,
            (Aabb::Span { lo, hi }, Aabb::Span { lo: ilo, hi: ihi }) => vle(lo, ilo) && vle(ihi, hi),
        }
    }

    /// The smallest box that holds both; the empty box is neutral.
    pub open spec fn enclose_spec(self, o: Aabb) -> Aabb {
        match (self, o) {
            (Aabb::Empty, _) => o,
            (_, Aabb::Empty) => self,
            (Aabb::Span { lo, hi }, Aabb::Span { lo: olo, hi: ohi }) => Aabb::Span {
                lo: vmin(lo, olo),
                hi: vmax(hi, ohi),
            },
        }
    }

    /// The lower end of axis `k`'s slab interval along `r` (axis 3 is the
    /// caller's own interval).
    pub open spec fn lower(self, r: Ray, k: int, t_min: Frac) -> Frac {
        match self {
            Aabb::Empty => t_min,
            Aabb::Span { lo, hi } => if k == 3 {
                t_min
            } else if r.dir.at(k) > 0 {
                Frac { num: (lo.at(k) - r.origin.at(k)) as i128, den: r.dir.at(k) as i128 }
            } else {
                Frac { num: (r.origin.at(k) - hi.at(k)) as i128, den: (-r.dir.at(k)) as i128 }
            },
        }
    }

    /// The upper end of axis `k`'s slab interval along `r`.
    pub open spec fn upper(self, r: Ray, k: int, t_max: Frac) -> Frac {
        match self {
            Aabb::Empty => t_max,
            Aabb::Span { lo, hi } => if k == 3 {
                t_max
            } else if r.dir.at(k) > 0 {
                Frac { num: (hi.at(k) - r.origin.at(k)) as i128, den: r.dir.at(k) as i128 }
            } else {
                Frac { num: (r.origin.at(k) - lo.at(k)) as i128, den: (-r.dir.at(k)) as i128 }
            },
        }
    }

    /// Axis `k` constrains the parameter: the caller's interval always does,
    /// a spatial axis only where the direction moves along it.
    pub open spec fn active(r: Ray, k: int) -> bool {
        0 <= k <= 3 && (k == 3 || r.dir.at(k) != 0)
    }

    /// The ray meets the box for some parameter strictly inside
    /// `(t_min, t_max)`: every lower end of the constraining intervals lies
    /// below every upper end.
    pub open spec fn hit_spec(self, r: Ray, t_min: Frac, t_max: Frac) -> bool {
        match self {
            Aabb::Empty => false,
            Aabb::Span { .. } => forall|i: int, j: int|
                #![trigger self.lower(r, i, t_min), self.upper(r, j, t_max)]
                Self::active(r, i) && Self::active(r, j) ==> self.lower(r, i, t_min).lt(
                    self.upper(r, j, t_max),
                ),
        }
    }

    pub fn new(lo: Vec3, hi: Vec3) -> (r: Aabb)
        ensures
            r == (Aabb::Span { lo, hi }),
    {
        Aabb::Span { lo, hi }
    }

    /// Is this the empty box?
    pub fn is_empty(&self) -> (r: bool)
        ensures
            r == (*self == Aabb::Empty),
    {
        match self {
            Aabb::Empty => true,
            Aabb::Span { .. } => false,
        }
    }

    /// The smallest box holding both `self` and `o`.
    pub fn enclose(&self, o: &Aabb) -> (r: Aabb)
        requires
            self.wf(),
            o.wf(),
        ensures
            r == self.enclose_spec(*o),
            r.wf(),
    {
        match (self, o) {
            (Aabb::Empty, _) => *o,
            (_, Aabb::Empty) => *self,
            (Aabb::Span { lo, hi }, Aabb::Span { lo: olo, hi: ohi }) => {
                let nlo = Vec3 {
                    x: if lo.x <= olo.x { lo.x } else { olo.x },
                    y: if lo.y <= olo.y { lo.y } else { olo.y },
                    z: if lo.z <= olo.z { lo.z } else { olo.z },
                };
                let nhi = Vec3 {
                    x: if hi.x >= ohi.x { hi.x } else { ohi.x },
                    y: if hi.y >= ohi.y { hi.y } else { ohi.y },
                    z: if hi.z >= ohi.z { hi.z } else { ohi.z },
                };
                Aabb::Span { lo: nlo, hi: nhi }
            },
        }
    }

    /// Slab test: does `r` meet the box for a parameter in `(t_min, t_max)`?
    /// An axis along which the ray does not move places no constraint.
    pub fn hit(&self, r: &Ray, t_min: &Frac, t_max: &Frac) -> (res: bool)
        requires
            self.wf(),
            r.wf(),
            t_min.wf(),
            t_max.wf(),
        ensures
            res == self.hit_spec(*r, *t_min, *t_max),
    {
        match self {
            Aabb::Empty => false,
            Aabb::Span { lo, hi } => {
                proof {
                    self.lemma_bounds_wf(*r, *t_min, *t_max);
                }
                let mut cur_lo = *t_min;
                let mut cur_hi = *t_max;
                let ghost mut li: int = 3;
                let ghost mut hj: int = 3;
                if !cur_lo.less_than(&cur_hi) {
                    assert(!self.lower(*r, 3, *t_min).lt(self.upper(*r, 3, *t_max)));
                    return false;
                }
                let mut axis: usize = 0;
                while axis < 3
                    invariant
                        0 <= axis <= 3,
                        *self == (Aabb::Span { lo: *lo, hi: *hi }),
                        self.wf(),
                        r.wf(),
                        forall|k: int| #![trigger self.lower(*r, k, *t_min)]
                            Self::active(*r, k) ==> self.lower(*r, k, *t_min).wf(),
                        forall|k: int| #![trigger self.upper(*r, k, *t_max)]
                            Self::active(*r, k) ==> self.upper(*r, k, *t_max).wf(),
                        Self::active(*r, li),
                        li == 3 || li < axis,
                        Self::active(*r, hj),
                        hj == 3 || hj < axis,
                        cur_lo == self.lower(*r, li, *t_min),
                        cur_hi == self.upper(*r, hj, *t_max),
                        cur_lo.lt(cur_hi),
                        forall|k: int| #![trigger self.lower(*r, k, *t_min)]
                            Self::active(*r, k) && (k == 3 || k < axis) ==> self.lower(
                                *r,
                                k,
                                *t_min,
                            ).le(cur_lo),
                        forall|k: int| #![trigger self.upper(*r, k, *t_max)]
                            Self::active(*r, k) && (k == 3 || k < axis) ==> cur_hi.le(
                                self.upper(*r, k, *t_max),
                            ),
                    decreases 3 - axis,
                {
                    let d = r.dir.get(axis);
                    if d != 0 {
                        let o = r.origin.get(axis);
                        let (l, u) = if d > 0 {
                            (Frac::new((lo.get(axis) - o) as i128, d as i128), Frac::new((hi.get(axis) - o) as i128, d as i128))
                        } else {
                            (Frac::new((o - hi.get(axis)) as i128, (-d) as i128), Frac::new((o - lo.get(axis)) as i128, (-d) as i128))
                        };
                        assert(l == self.lower(*r, axis as int, *t_min));
                        assert(u == self.upper(*r, axis as int, *t_max));
                        if cur_lo.less_than(&l) {
                            cur_lo = l;
                            proof {
                                let old_li = li;
                                li = axis as int;
                                assert forall|k: int| #![trigger self.lower(*r, k, *t_min)]
                                    Self::active(*r, k) && (k == 3 || k < axis + 1) implies
                                    self.lower(*r, k, *t_min).le(cur_lo) by {
                                    if k != axis {
                                        crate::frac::lemma_le_trans(
                                            self.lower(*r, k, *t_min),
                                            self.lower(*r, old_li, *t_min),
                                            cur_lo,
                                        );
                                    } else {
                                        lemma_le_refl(cur_lo);
                                    }
                                }
                            }
                        } else {
                            proof {
                                lemma_lt_total(cur_lo, l);
                            }
                        }
                        if u.less_than(&cur_hi) {
                            cur_hi = u;
                            proof {
                                let old_hj = hj;
                                hj = axis as int;
                                assert forall|k: int| #![trigger self.upper(*r, k, *t_max)]
                                    Self::active(*r, k) && (k == 3 || k < axis + 1) implies
                                    cur_hi.le(self.upper(*r, k, *t_max)) by {
                                    if k != axis {
                                        crate::frac::lemma_le_trans(
                                            cur_hi,
                                            self.upper(*r, old_hj, *t_max),
                                            self.upper(*r, k, *t_max),
                                        );
                                    } else {
                                        lemma_le_refl(cur_hi);
                                    }
                                }
                            }
                        } else {
                            proof {
                                lemma_lt_total(u, cur_hi);
                            }
                        }
                        if !cur_lo.less_than(&cur_hi) {
                            return false;
                        }
                    }
                    axis = axis + 1;
                }
                proof {
                    assert forall|i: int, j: int|
                        #![trigger self.lower(*r, i, *t_min), self.upper(*r, j, *t_max)]
                        Self::active(*r, i) && Self::active(*r, j) implies self.lower(
                            *r,
                            i,
                            *t_min,
                        ).lt(self.upper(*r, j, *t_max)) by {
                        lemma_le_lt_trans(self.lower(*r, i, *t_min), cur_lo, cur_hi);
                        lemma_lt_le_trans(
                            self.lower(*r, i, *t_min),
                            cur_hi,
                            self.upper(*r, j, *t_max),
                        );
                    }
                }
                true
            },
        }
    }

    /// Every constraining interval end is a well-formed fraction.
    pub proof fn lemma_bounds_wf(self, r: Ray, t_min: Frac, t_max: Frac)
        requires
            self.wf(),
            r.wf(),
            t_min.wf(),
            t_max.wf(),
        ensures
            forall|k: int| #![trigger self.lower(r, k, t_min)]
                Self::active(r, k) ==> self.lower(r, k, t_min).wf(),
            forall|k: int| #![trigger self.upper(r, k, t_max)]
                Self::active(r, k) ==> self.upper(r, k, t_max).wf(),
    {
        assert(COORD_MAX + COORD_MAX <= FRAC_MAX);
    }
}

/// The enclosure of two boxes holds each of them, does not depend on their
/// order, is the least box that holds both, and has the empty box as its
/// neutral element.
pub proof fn lemma_enclose(a: Aabb, b: Aabb, c: Aabb)
    requires
        a.wf(),
        b.wf(),
    ensures
        a.enclose_spec(b).contains(a),
        a.enclose_spec(b).contains(b),
        a.enclose_spec(b) == b.enclose_spec(a),
        Aabb::Empty.enclose_spec(a) == a,
        a.enclose_spec(Aabb::Empty) == a,
        c.contains(a) && c.contains(b) ==> c.contains(a.enclose_spec(b)),
{
}

/// Containment is monotone for the slab test: a ray that meets a box within
/// an interval meets every box that contains it within the same interval.
pub proof fn lemma_hit_monotone(a: Aabb, b: Aabb, r: Ray, t_min: Frac, t_max: Frac)
    requires
        a.wf(),
        b.wf(),
        r.wf(),
        t_min.wf(),
        t_max.wf(),
        b.contains(a),
        a.hit_spec(r, t_min, t_max),
    ensures
        b.hit_spec(r, t_min, t_max),
{
    a.lemma_bounds_wf(r, t_min, t_max);
    b.lemma_bounds_wf(r, t_min, t_max);
    assert forall|k: int| #![trigger b.lower(r, k, t_min)]
        Aabb::active(r, k) implies b.lower(r, k, t_min).le(a.lower(r, k, t_min)) by {
        let (lb, la) = (b.lower(r, k, t_min), a.lower(r, k, t_min));
        if k != 3 {
            assert(lb.den == la.den && lb.num <= la.num);
            assert(lb.num * la.den <= la.num * lb.den) by (nonlinear_arith)
                requires lb.den == la.den, lb.num <= la.num, la.den > 0;
        }
    }
    assert forall|k: int| #![trigger b.upper(r, k, t_max)]
        Aabb::active(r, k) implies a.upper(r, k, t_max).le(b.upper(r, k, t_max)) by {
        let (ub, ua) = (b.upper(r, k, t_max), a.upper(r, k, t_max));
        if k != 3 {
            assert(ub.den == ua.den && ua.num <= ub.num);
            assert(ua.num * ub.den <= ub.num * ua.den) by (nonlinear_arith)
                requires ub.den == ua.den, ua.num <= ub.num, ua.den > 0;
        }
    }
    assert forall|i: int, j: int|
        #![trigger b.lower(r, i, t_min), b.upper(r, j, t_max)]
        Aabb::active(r, i) && Aabb::active(r, j) implies b.lower(r, i, t_min).lt(
            b.upper(r, j, t_max),
        ) by {
        assert(a.lower(r, i, t_min).lt(a.upper(r, j, t_max)));
        lemma_le_lt_trans(b.lower(r, i, t_min), a.lower(r, i, t_min), a.upper(r, j, t_max));
        lemma_lt_le_trans(b.lower(r, i, t_min), a.upper(r, j, t_max), b.upper(r, j, t_max));
    }
}

} // verus!
