use vstd::prelude::*;

verus! {

/// Largest magnitude of a numerator or denominator; keeps every
/// cross product used in a comparison inside `i128`.
pub const FRAC_MAX: i128 = 4_000_000_000_000_000_000;

/// A rational ray parameter `num / den` with a positive denominator.
#[derive(Clone, Copy, Debug, PartialEq, Eq)]
pub struct Frac {
    pub num: i128,
    pub den: i128,
}

impl Frac {
    /// Both parts are in range and the denominator is positive.
    pub open spec fn wf(self) -> bool {
        &&& 0 < self.den <= FRAC_MAX
        &&& -FRAC_MAX <= self.num <= FRAC_MAX
    }

    /// Strictly smaller, as rationals.
    pub open spec fn lt(self, o: Frac) -> bool {
        self.num * o.den < o.num * self.den
    }

    /// Smaller or equal, as rationals.
    pub open spec fn le(self, o: Frac) -> bool {
        self.num * o.den <= o.num * self.den
    }

    /// Equal as rationals (not necessarily in the same terms).
    pub open spec fn same(self, o: Frac) -> bool {
        self.num * o.den == o.num * self.den
    }

    pub fn new(num: i128, den: i128) -> (r: Frac)
        requires
            0 < den <= FRAC_MAX,
            -FRAC_MAX <= num <= FRAC_MAX,
        ensures
            r.wf(),
            r.num == num,
            r.den == den,
    {
        Frac { num, den }
    }

    pub fn less_than(&self, o: &Frac) -> (r: bool)
        requires
            self.wf(),
            o.wf(),
        ensures
            r == self.lt(*o),
    {
        proof { lemma_cross_bounded(*self, *o); }
        self.num * o.den < o.num * self.den
    }
}

/// The cross products of two well-formed fractions fit in `i128`.
pub proof fn lemma_cross_bounded(a: Frac, b: Frac)
    requires
        a.wf(),
        b.wf(),
    ensures
        -FRAC_MAX * FRAC_MAX <= a.num * b.den <= FRAC_MAX * FRAC_MAX,
        -FRAC_MAX * FRAC_MAX <= b.num * a.den <= FRAC_MAX * FRAC_MAX,
{
    assert(-FRAC_MAX * FRAC_MAX <= a.num * b.den <= FRAC_MAX * FRAC_MAX) by (nonlinear_arith)
        requires a.wf(), b.wf();
    assert(-FRAC_MAX * FRAC_MAX <= b.num * a.den <= FRAC_MAX * FRAC_MAX) by (nonlinear_arith)
        requires a.wf(), b.wf();
}

/// Exactly one of `a < b` and `b <= a` holds.
pub proof fn lemma_lt_total(a: Frac, b: Frac)
    ensures
        a.lt(b) != b.le(a),
{
}

/// `a <= a`.
pub proof fn lemma_le_refl(a: Frac)
    ensures
        a.le(a),
{
}

/// `a <= b <= c` gives `a <= c`.
pub proof fn lemma_le_trans(a: Frac, b: Frac, c: Frac)
    requires
        a.den > 0,
        b.den > 0,
        c.den > 0,
        a.le(b),
        b.le(c),
    ensures
        a.le(c),
{
    assert(a.num * b.den * c.den <= b.num * a.den * c.den) by (nonlinear_arith)
        requires a.num * b.den <= b.num * a.den, c.den > 0;
    assert(b.num * c.den * a.den <= c.num * b.den * a.den) by (nonlinear_arith)
        requires b.num * c.den <= c.num * b.den, a.den > 0;
    assert(a.num * c.den * b.den <= c.num * a.den * b.den) by (nonlinear_arith)
        requires
            a.num * b.den * c.den <= b.num * a.den * c.den,
            b.num * c.den * a.den <= c.num * b.den * a.den;
    assert(a.num * c.den <= c.num * a.den) by (nonlinear_arith)
        requires a.num * c.den * b.den <= c.num * a.den * b.den, b.den > 0;
}

/// `a <= b < c` gives `a < c`.
pub proof fn lemma_le_lt_trans(a: Frac, b: Frac, c: Frac)
    requires
        a.den > 0,
        b.den > 0,
        c.den > 0,
        a.le(b),
        b.lt(c),
    ensures
        a.lt(c),
{
    assert(a.num * b.den * c.den <= b.num * a.den * c.den) by (nonlinear_arith)
        requires a.num * b.den <= b.num * a.den, c.den > 0;
    assert(b.num * c.den * a.den < c.num * b.den * a.den) by (nonlinear_arith)
        requires b.num * c.den < c.num * b.den, a.den > 0;
    assert(a.num * c.den * b.den < c.num * a.den * b.den) by (nonlinear_arith)
        requires
            a.num * b.den * c.den <= b.num * a.den * c.den,
            b.num * c.den * a.den < c.num * b.den * a.den;
    assert(a.num * c.den < c.num * a.den) by (nonlinear_arith)
        requires a.num * c.den * b.den < c.num * a.den * b.den, b.den > 0;
}

/// `a < b <= c` gives `a < c`.
pub proof fn lemma_lt_le_trans(a: Frac, b: Frac, c: Frac)
    requires
        a.den > 0,
        b.den > 0,
        c.den > 0,
        a.lt(b),
        b.le(c),
    ensures
        a.lt(c),
{
    assert(a.num * b.den * c.den < b.num * a.den * c.den) by (nonlinear_arith)
        requires a.num * b.den < b.num * a.den, c.den > 0;
    assert(b.num * c.den * a.den <= c.num * b.den * a.den) by (nonlinear_arith)
        requires b.num * c.den <= c.num * b.den, a.den > 0;
    assert(a.num * c.den * b.den < c.num * a.den * b.den) by (nonlinear_arith)
        requires
            a.num * b.den * c.den < b.num * a.den * c.den,
            b.num * c.den * a.den <= c.num * b.den * a.den;
    assert(a.num * c.den < c.num * a.den) by (nonlinear_arith)
        requires a.num * c.den * b.den < c.num * a.den * b.den, b.den > 0;
}

} // verus!
