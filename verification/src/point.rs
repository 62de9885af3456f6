//! Points on the unit circle `x^2 + y^2 = 1` over the Mersenne-31 field,
//! with the circle group law and the quantities the circle FFT needs.

use vstd::prelude::*;
use crate::field::{fadd, fmul, fsub, finv_exists, Mersenne31, P};

verus! {

/// Group law on the circle: `(x1,y1) + (x2,y2) = (x1 x2 - y1 y2, x1 y2 + y1 x2)`.
pub open spec fn pt_add(p: (int, int), q: (int, int)) -> (int, int) {
    (fsub(fmul(p.0, q.0), fmul(p.1, q.1)), fadd(fmul(p.0, q.1), fmul(p.1, q.0)))
}

/// The identity of the circle group.
pub open spec fn pt_id() -> (int, int) {
    (1int, 0int)
}

/// Scalar multiplication by repeated addition.
pub open spec fn pt_mul(p: (int, int), k: nat) -> (int, int)
    decreases k,
{
    if k == 0 {
        pt_id()
    } else {
        pt_add(pt_mul(p, (k - 1) as nat), p)
    }
}

/// Doubling, in the closed form `2 (x,y) = (2x^2 - 1, 2xy)` used by the FFT.
pub open spec fn pt_double(p: (int, int)) -> (int, int) {
    (pi_x(p.0), fadd(fmul(p.0, p.1), fmul(p.0, p.1)))
}

/// Iterated doubling.
pub open spec fn pt_double_k(p: (int, int), k: nat) -> (int, int)
    decreases k,
{
    if k == 0 {
        p
    } else {
        pt_double(pt_double_k(p, (k - 1) as nat))
    }
}

/// The point reached from `start` after `m` steps of `step`.
pub open spec fn iter_pt(start: (int, int), step: (int, int), m: nat) -> (int, int)
    decreases m,
{
    if m == 0 {
        start
    } else {
        pt_add(iter_pt(start, step, (m - 1) as nat), step)
    }
}

/// The doubling map on x-coordinates, `x -> 2x^2 - 1`.
pub open spec fn pi_x(x: int) -> int {
    fsub(fadd(fmul(x, x), fmul(x, x)), 1)
}

/// `v_n`: the x-coordinate after `log_n - 1` doublings, the vanishing
/// quantity of the standard circle domain of size `2^log_n`.
pub open spec fn vn_x(x: int, log_n: nat) -> int
    decreases log_n,
{
    if log_n <= 1 {
        x
    } else {
        vn_x(pi_x(x), (log_n - 1) as nat)
    }
}

/// The x-coordinate of the fixed generator of the full order-`2^31`
/// circle subgroup of Mersenne-31.
pub const CIRCLE_GEN_X: u32 = 311_014_874;

/// The y-coordinate of the fixed generator of the full order-`2^31`
/// circle subgroup of Mersenne-31.
pub const CIRCLE_GEN_Y: u32 = 1_584_694_829;

/// The generator of the order-`2^log_n` circle subgroup: the full generator
/// doubled `31 - log_n` times.
pub open spec fn circle_generator(log_n: nat) -> (int, int) {
    pt_double_k((CIRCLE_GEN_X as int, CIRCLE_GEN_Y as int), (31 - log_n) as nat)
}

/// A point on the circle `x^2 + y^2 = 1` over Mersenne-31.
#[derive(Clone, Copy, PartialEq, Eq, Structural, Debug)]
pub struct Point {
    pub x: Mersenne31,
    pub y: Mersenne31,
}

impl Point {
    /// The pair of canonical coordinates.
    pub open spec fn pt(self) -> (int, int) {
        (self.x.val(), self.y.val())
    }

    pub fn new(x: Mersenne31, y: Mersenne31) -> (r: Self)
        ensures
            r.pt() == (x.val(), y.val()),
    {
        Point { x, y }
    }

    /// The identity of the circle group.
    pub fn identity() -> (r: Self)
        ensures
            r.pt() == pt_id(),
    {
        Point { x: Mersenne31::one(), y: Mersenne31::zero() }
    }

    /// The group law.
    pub fn add(self, other: Self) -> (r: Self)
        ensures
            r.pt() == pt_add(self.pt(), other.pt()),
    {
        Point {
            x: self.x.mul(other.x).sub(self.y.mul(other.y)),
            y: self.x.mul(other.y).add(self.y.mul(other.x)),
        }
    }

    /// The inverse: reflection across the x-axis.
    pub fn neg(self) -> (r: Self)
        ensures
            r.pt() == (self.pt().0, fsub(0, self.pt().1)),
    {
        Point { x: self.x, y: self.y.neg() }
    }

    /// Doubling by the closed form `(2x^2 - 1, 2xy)`.
    pub fn double(self) -> (r: Self)
        ensures
            r.pt() == pt_double(self.pt()),
    {
        Point {
            x: self.x.square().double().sub(Mersenne31::one()),
            y: self.x.mul(self.y).double(),
        }
    }

    /// Scalar multiplication by repeated addition.
    pub fn mul_scalar(self, k: usize) -> (r: Self)
        ensures
            r.pt() == pt_mul(self.pt(), k as nat),
    {
        let mut acc = Point::identity();
        let mut i: usize = 0;
        while i < k
            invariant
                0 <= i <= k,
                acc.pt() == pt_mul(self.pt(), i as nat),
            decreases k - i,
        {
            acc = acc.add(self);
            i = i + 1;
        }
        acc
    }

    /// The generator of the order-`2^log_n` circle subgroup.
    pub fn generator(log_n: usize) -> (r: Self)
        requires
            log_n <= 31,
        ensures
            r.pt() == circle_generator(log_n as nat),
    {
        let mut g = Point { x: Mersenne31::new(CIRCLE_GEN_X), y: Mersenne31::new(CIRCLE_GEN_Y) };
        proof {
            assert(CIRCLE_GEN_X % P == CIRCLE_GEN_X);
            assert(CIRCLE_GEN_Y % P == CIRCLE_GEN_Y);
        }
        let mut i: usize = 0;
        let steps: usize = 31 - log_n;
        while i < steps
            invariant
                0 <= i <= steps,
                g.pt() == pt_double_k((CIRCLE_GEN_X as int, CIRCLE_GEN_Y as int), i as nat),
            decreases steps - i,
        {
            g = g.double();
            i = i + 1;
        }
        g
    }

    /// `v_n`: the x-coordinate of this point after `log_n - 1` doublings.
    pub fn v_n(self, log_n: usize) -> (r: Mersenne31)
        requires
            log_n >= 1,
        ensures
            r.val() == vn_x(self.pt().0, log_n as nat),
    {
        let mut x = self.x;
        let mut i: usize = 0;
        let steps: usize = log_n - 1;
        while i < steps
            invariant
                0 <= i <= steps,
                steps == log_n - 1,
                log_n >= 1,
                vn_x(x.val(), (log_n - i) as nat) == vn_x(self.pt().0, log_n as nat),
            decreases steps - i,
        {
            x = x.square().double().sub(Mersenne31::one());
            i = i + 1;
        }
        x
    }

    /// The birational map from the projective line onto the circle:
    /// `t -> ((1 - t^2)/(1 + t^2), 2t/(1 + t^2))`.
    pub fn from_projective_line(t: Mersenne31) -> (r: Self)
        requires
            finv_exists(fadd(1, fmul(t.val(), t.val()))),
        ensures
            r.pt().0 == fmul(fsub(1, fmul(t.val(), t.val())), crate::field::finv(fadd(1, fmul(t.val(), t.val())))),
            r.pt().1 == fmul(fadd(t.val(), t.val()), crate::field::finv(fadd(1, fmul(t.val(), t.val())))),
    {
        let t2 = t.square();
        let denom_inv = Mersenne31::one().add(t2).inverse();
        Point {
            x: Mersenne31::one().sub(t2).mul(denom_inv),
            y: t.double().mul(denom_inv),
        }
    }
}

} // verus!
