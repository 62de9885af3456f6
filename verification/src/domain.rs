//! Circle domains: cosets of the `2^log_n`-element subgroup of the circle
//! group, enumerated from a shift point.

use vstd::prelude::*;
use vstd::arithmetic::power2::pow2;
use crate::field::fsub;
use crate::point::{circle_generator, pt_add, pt_mul, Point};

verus! {

/// The coset `shift + <gen>` of the order-`2^log_n` circle subgroup.
#[derive(Clone, Copy, PartialEq, Eq, Structural, Debug)]
pub struct CircleDomain {
    pub log_n: usize,
    pub shift: Point,
}

impl CircleDomain {
    /// Sizes this library supports: at least two points, and small enough
    /// that every index fits comfortably in a machine word.
    pub open spec fn wf(self) -> bool {
        1 <= self.log_n <= 30
    }

    /// The generator of the full order-`2^log_n` subgroup.
    pub open spec fn spec_gen(self) -> (int, int) {
        circle_generator(self.log_n as nat)
    }

    /// The step of the half-coset, of order `2^(log_n - 1)`.
    pub open spec fn spec_gen_half(self) -> (int, int) {
        circle_generator((self.log_n - 1) as nat)
    }

    /// The `k`-th point of the domain in natural order: the half-coset
    /// interleaved with its reflection taken backwards, so that each
    /// even/odd pair holds a point and a conjugate.
    pub open spec fn spec_point(self, k: nat) -> (int, int) {
        let half = pow2((self.log_n - 1) as nat);
        if k % 2 == 0 {
            self.spec_coset0_point(k / 2)
        } else {
            let p = self.spec_coset0_point((half - 1 - k / 2) as nat);
            (p.0, fsub(0, p.1))
        }
    }

    /// The `k`-th point of the half-coset: `shift + k * gen_half`.
    pub open spec fn spec_coset0_point(self, k: nat) -> (int, int) {
        pt_add(self.shift.pt(), pt_mul(self.spec_gen_half(), k))
    }

    pub fn new(log_n: usize, shift: Point) -> (r: Self)
        requires
            1 <= log_n <= 30,
        ensures
            r.log_n == log_n,
            r.shift == shift,
            r.wf(),
    {
        CircleDomain { log_n, shift }
    }

    /// The standard domain: shifted by a generator of the subgroup of twice
    /// the size, so that the domain holds exactly the points of order
    /// `2^(log_n + 1)`.
    pub fn standard(log_n: usize) -> (r: Self)
        requires
            1 <= log_n <= 30,
        ensures
            r.log_n == log_n,
            r.shift.pt() == circle_generator((log_n + 1) as nat),
            r.wf(),
    {
        CircleDomain { log_n, shift: Point::generator(log_n + 1) }
    }

    /// The number of points.
    pub fn size(&self) -> (r: usize)
        requires
            self.wf(),
        ensures
            r == pow2(self.log_n as nat),
            r >= 2,
    {
        proof {
            vstd::bits::lemma_usize_pow2_no_overflow(self.log_n as nat);
            vstd::bits::lemma_usize_shl_is_mul(1usize, self.log_n);
            vstd::arithmetic::power2::lemma2_to64();
            if self.log_n > 1 {
                vstd::arithmetic::power2::lemma_pow2_strictly_increases(1, self.log_n as nat);
            }
        }
        1usize << self.log_n
    }

    /// The generator of the full subgroup.
    pub fn gen_point(&self) -> (r: Point)
        requires
            self.wf(),
        ensures
            r.pt() == self.spec_gen(),
    {
        Point::generator(self.log_n)
    }

    /// The `k`-th point of the domain in natural order.
    pub fn nth_point(&self, k: usize) -> (r: Point)
        requires
            self.wf(),
            (k as nat) < pow2(self.log_n as nat),
        ensures
            r.pt() == self.spec_point(k as nat),
    {
        proof {
            vstd::bits::lemma_usize_pow2_no_overflow((self.log_n - 1) as nat);
            vstd::bits::lemma_usize_shl_is_mul(1usize, (self.log_n - 1) as usize);
            vstd::arithmetic::power2::lemma_pow2_unfold(self.log_n as nat);
        }
        let half: usize = 1usize << (self.log_n - 1);
        let g = Point::generator(self.log_n - 1);
        if k % 2 == 0 {
            self.shift.add(g.mul_scalar(k / 2))
        } else {
            self.shift.add(g.mul_scalar(half - 1 - k / 2)).neg()
        }
    }

    /// All points in natural order.
    pub fn points(&self) -> (r: Vec<Point>)
        requires
            self.wf(),
        ensures
            r@.len() == pow2(self.log_n as nat),
            forall|k: int| 0 <= k < r@.len() ==> r@[k].pt() == self.spec_point(k as nat),
    {
        let n = self.size();
        let c0 = self.coset0_points();
        let half = c0.len();
        proof {
            vstd::arithmetic::power2::lemma_pow2_unfold(self.log_n as nat);
        }
        let mut out: Vec<Point> = Vec::new();
        let mut k: usize = 0;
        while k < n
            invariant
                0 <= k <= n,
                n == pow2(self.log_n as nat),
                self.wf(),
                half == pow2((self.log_n - 1) as nat),
                2 * half == n,
                c0@.len() == half,
                forall|j: int| 0 <= j < half ==> c0@[j].pt() == self.spec_coset0_point(j as nat),
                out@.len() == k,
                forall|j: int| 0 <= j < k ==> out@[j].pt() == self.spec_point(j as nat),
            decreases n - k,
        {
            if k % 2 == 0 {
                out.push(c0[k / 2]);
            } else {
                out.push(c0[half - 1 - k / 2].neg());
            }
            k = k + 1;
        }
        out
    }

    /// The half-coset `shift + <gen_half>` of size `2^(log_n - 1)` from
    /// which the twiddle tables are derived.
    pub fn coset0_points(&self) -> (r: Vec<Point>)
        requires
            self.wf(),
        ensures
            r@.len() == pow2((self.log_n - 1) as nat),
            forall|k: int| 0 <= k < r@.len() ==> r@[k].pt() == self.spec_coset0_point(k as nat),
    {
        proof {
            vstd::bits::lemma_usize_pow2_no_overflow((self.log_n - 1) as nat);
            vstd::bits::lemma_usize_shl_is_mul(1usize, (self.log_n - 1) as usize);
        }
        let half: usize = 1usize << (self.log_n - 1);
        let g = Point::generator(self.log_n - 1);
        let mut out: Vec<Point> = Vec::new();
        let mut cur = Point::identity();
        let mut k: usize = 0;
        while k < half
            invariant
                0 <= k <= half,
                half == pow2((self.log_n - 1) as nat),
                self.wf(),
                g.pt() == self.spec_gen_half(),
                cur.pt() == pt_mul(self.spec_gen_half(), k as nat),
                out@.len() == k,
                forall|j: int| 0 <= j < k ==> out@[j].pt() == self.spec_coset0_point(j as nat),
            decreases half - k,
        {
            out.push(self.shift.add(cur));
            cur = cur.add(g);
            k = k + 1;
        }
        out
    }
}

} // verus!
