//! The degree-two complex extension of the Mersenne-31 field, and circle
//! points over it.  `P = 3 mod 4`, so `x^2 + 1` is irreducible and the
//! extension is the field of "complex" pairs `a + b i`.

use vstd::prelude::*;
use crate::field::{fadd, fmul, fsub, finv, finv_exists, Mersenne31};
use crate::point::Point;

verus! {

/// Sum of complex pairs.
pub open spec fn cadd(a: (int, int), b: (int, int)) -> (int, int) {
    (fadd(a.0, b.0), fadd(a.1, b.1))
}

/// Difference of complex pairs.
pub open spec fn csub(a: (int, int), b: (int, int)) -> (int, int) {
    (fsub(a.0, b.0), fsub(a.1, b.1))
}

/// Product of complex pairs, with `i^2 = -1`.
pub open spec fn cmul(a: (int, int), b: (int, int)) -> (int, int) {
    (fsub(fmul(a.0, b.0), fmul(a.1, b.1)), fadd(fmul(a.0, b.1), fmul(a.1, b.0)))
}

/// The norm `a^2 + b^2` of a complex pair.
pub open spec fn cnorm(a: (int, int)) -> int {
    fadd(fmul(a.0, a.0), fmul(a.1, a.1))
}

/// The inverse `conj(a) / norm(a)` of a complex pair.
pub open spec fn cinv(a: (int, int)) -> (int, int) {
    (fmul(a.0, finv(cnorm(a))), fmul(fsub(0, a.1), finv(cnorm(a))))
}

/// An element of the complex extension of Mersenne-31.
#[derive(Clone, Copy, PartialEq, Eq, Structural, Debug)]
pub struct Cm31 {
    pub re: Mersenne31,
    pub im: Mersenne31,
}

impl Cm31 {
    /// The pair of canonical component values.
    pub open spec fn cval(self) -> (int, int) {
        (self.re.val(), self.im.val())
    }

    pub fn new(re: Mersenne31, im: Mersenne31) -> (r: Self)
        ensures
            r.cval() == (re.val(), im.val()),
    {
        Cm31 { re, im }
    }

    /// Embed a base-field element.
    pub fn from_base(a: Mersenne31) -> (r: Self)
        ensures
            r.cval() == (a.val(), 0int),
    {
        Cm31 { re: a, im: Mersenne31::zero() }
    }

    pub fn zero() -> (r: Self)
        ensures
            r.cval() == (0int, 0int),
    {
        Cm31 { re: Mersenne31::zero(), im: Mersenne31::zero() }
    }

    pub fn one() -> (r: Self)
        ensures
            r.cval() == (1int, 0int),
    {
        Cm31 { re: Mersenne31::one(), im: Mersenne31::zero() }
    }

    pub fn add(self, other: Self) -> (r: Self)
        ensures
            r.cval() == cadd(self.cval(), other.cval()),
    {
        Cm31 { re: self.re.add(other.re), im: self.im.add(other.im) }
    }

    pub fn sub(self, other: Self) -> (r: Self)
        ensures
            r.cval() == csub(self.cval(), other.cval()),
    {
        Cm31 { re: self.re.sub(other.re), im: self.im.sub(other.im) }
    }

    pub fn mul(self, other: Self) -> (r: Self)
        ensures
            r.cval() == cmul(self.cval(), other.cval()),
    {
        Cm31 {
            re: self.re.mul(other.re).sub(self.im.mul(other.im)),
            im: self.re.mul(other.im).add(self.im.mul(other.re)),
        }
    }

    pub fn square(self) -> (r: Self)
        ensures
            r.cval() == cmul(self.cval(), self.cval()),
    {
        self.mul(self)
    }

    pub fn double(self) -> (r: Self)
        ensures
            r.cval() == cadd(self.cval(), self.cval()),
    {
        self.add(self)
    }

    /// The inverse, through the norm: `1/(a+bi) = (a-bi)/(a^2+b^2)`.
    pub fn inverse(self) -> (r: Self)
        requires
            finv_exists(cnorm(self.cval())),
        ensures
            r.cval() == cinv(self.cval()),
    {
        let norm = self.re.mul(self.re).add(self.im.mul(self.im));
        let ninv = norm.inverse();
        Cm31 { re: self.re.mul(ninv), im: self.im.neg().mul(ninv) }
    }
}

/// A circle point with extension-field coordinates.
#[derive(Clone, Copy, PartialEq, Eq, Structural, Debug)]
pub struct PointExt {
    pub x: Cm31,
    pub y: Cm31,
}

/// The group law over the extension.
pub open spec fn ept_add(p: ((int, int), (int, int)), q: ((int, int), (int, int))) -> (
    (int, int),
    (int, int),
) {
    (csub(cmul(p.0, q.0), cmul(p.1, q.1)), cadd(cmul(p.0, q.1), cmul(p.1, q.0)))
}

/// The doubling map on extension x-coordinates.
pub open spec fn epi_x(x: (int, int)) -> (int, int) {
    csub(cadd(cmul(x, x), cmul(x, x)), (1int, 0int))
}

/// `v_n` over the extension: the x-coordinate after `log_n - 1` doublings.
pub open spec fn evn_x(x: (int, int), log_n: nat) -> (int, int)
    decreases log_n,
{
    if log_n <= 1 {
        x
    } else {
        evn_x(epi_x(x), (log_n - 1) as nat)
    }
}

impl PointExt {
    pub open spec fn ept(self) -> ((int, int), (int, int)) {
        (self.x.cval(), self.y.cval())
    }

    pub fn new(x: Cm31, y: Cm31) -> (r: Self)
        ensures
            r.ept() == (x.cval(), y.cval()),
    {
        PointExt { x, y }
    }

    /// Embed a base-field circle point.
    pub fn from_base(p: Point) -> (r: Self)
        ensures
            r.ept() == ((p.pt().0, 0int), (p.pt().1, 0int)),
    {
        PointExt { x: Cm31::from_base(p.x), y: Cm31::from_base(p.y) }
    }

    /// The group law.
    pub fn add(self, other: Self) -> (r: Self)
        ensures
            r.ept() == ept_add(self.ept(), other.ept()),
    {
        PointExt {
            x: self.x.mul(other.x).sub(self.y.mul(other.y)),
            y: self.x.mul(other.y).add(self.y.mul(other.x)),
        }
    }

    /// The inverse: reflection across the x-axis.
    pub fn neg(self) -> (r: Self)
        ensures
            r.ept() == (self.ept().0, csub((0int, 0int), self.ept().1)),
    {
        PointExt { x: self.x, y: Cm31::zero().sub(self.y) }
    }

    /// Group subtraction.
    pub fn sub(self, other: Self) -> (r: Self)
        ensures
            r.ept() == ept_add(self.ept(), (other.ept().0, csub((0int, 0int), other.ept().1))),
    {
        self.add(other.neg())
    }

    /// `v_n` over the extension.
    pub fn v_n(self, log_n: usize) -> (r: Cm31)
        requires
            log_n >= 1,
        ensures
            r.cval() == evn_x(self.ept().0, log_n as nat),
    {
        let mut x = self.x;
        let mut i: usize = 0;
        let steps: usize = log_n - 1;
        while i < steps
            invariant
                0 <= i <= steps,
                steps == log_n - 1,
                log_n >= 1,
                evn_x(x.cval(), (log_n - i) as nat) == evn_x(self.ept().0, log_n as nat),
            decreases steps - i,
        {
            x = x.square().double().sub(Cm31::one());
            i = i + 1;
        }
        x
    }

    /// The birational map from the projective line onto the circle, over
    /// the extension.
    pub fn from_projective_line(t: Cm31) -> (r: Self)
        requires
            finv_exists(cnorm(cadd((1int, 0int), cmul(t.cval(), t.cval())))),
        ensures
            ({
                let denom_inv = cinv(cadd((1int, 0int), cmul(t.cval(), t.cval())));
                r.ept() == (
                    cmul(csub((1int, 0int), cmul(t.cval(), t.cval())), denom_inv),
                    cmul(cadd(t.cval(), t.cval()), denom_inv),
                )
            }),
    {
        let t2 = t.square();
        let denom_inv = Cm31::one().add(t2).inverse();
        PointExt { x: Cm31::one().sub(t2).mul(denom_inv), y: t.double().mul(denom_inv) }
    }
}

} // verus!
