//! Arithmetic in the Mersenne-31 prime field, with every operation verified
//! against its mathematical meaning modulo `P = 2^31 - 1`.

use vstd::prelude::*;
use vstd::arithmetic::div_mod::{
    lemma_mod_multiples_vanish, lemma_mul_mod_noop_general, lemma_small_mod,
};
use vstd::bits::{lemma_u64_low_bits_mask_is_mod, lemma_u64_shr_is_div};

verus! {

/// The Mersenne prime `2^31 - 1`.
pub const P: u32 = 0x7fff_ffff;

/// Sum of two residues, reduced.
pub open spec fn fadd(a: int, b: int) -> int {
    (a + b) % (P as int)
}

/// Difference of two residues, reduced.
pub open spec fn fsub(a: int, b: int) -> int {
    (a - b) % (P as int)
}

/// Product of two residues, reduced.
pub open spec fn fmul(a: int, b: int) -> int {
    (a * b) % (P as int)
}

/// `a^e` modulo `P`.
pub open spec fn fpow(a: int, e: nat) -> int
    decreases e,
{
    if e == 0 {
        1
    } else {
        (fpow(a, (e - 1) as nat) * a) % (P as int)
    }
}

/// The multiplicative inverse of `a` modulo `P`, when one exists.
pub open spec fn finv(a: int) -> int {
    choose|r: int| 0 <= r < P && #[trigger] (r * a) % (P as int) == 1
}

/// Whether `a` has a multiplicative inverse modulo `P`; true for every
/// nonzero residue, though establishing that for a particular value takes a
/// run-time check rather than a primality development.
pub open spec fn finv_exists(a: int) -> bool {
    exists|r: int| 0 <= r < P && #[trigger] (r * a) % (P as int) == 1
}

/// An element of the Mersenne-31 field, kept in canonical form.
#[derive(Clone, Copy, PartialEq, Eq, Structural, Debug)]
pub struct Mersenne31 {
    v: u32,
}

impl Mersenne31 {
    /// The canonical representative, as a mathematical integer; reduced in
    /// the definition itself, so that `0 <= val < P` holds of every value.
    pub closed spec fn val(self) -> int {
        (self.v as int) % (P as int)
    }

    #[verifier::type_invariant]
    spec fn type_inv(self) -> bool {
        self.v < P
    }

    /// With the type invariant in hand, the raw field and the canonical
    /// value coincide.
    proof fn lemma_val_is_raw(self)
        requires
            self.v < P,
        ensures
            self.val() == self.v,
    {
        lemma_small_mod(self.v as nat, P as nat);
    }

    /// Canonical reduction of an arbitrary `u32`.
    pub fn new(v: u32) -> (r: Self)
        ensures
            r.val() == v % P,
    {
        Mersenne31 { v: v % P }
    }

    /// The raw canonical representative.
    pub fn as_canonical_u32(self) -> (r: u32)
        ensures
            r == self.val(),
            r < P,
    {
        proof {
            use_type_invariant(self);
            self.lemma_val_is_raw();
        }
        self.v
    }

    pub fn zero() -> (r: Self)
        ensures
            r.val() == 0,
    {
        Mersenne31 { v: 0 }
    }

    pub fn one() -> (r: Self)
        ensures
            r.val() == 1,
    {
        Mersenne31 { v: 1 }
    }

    /// Equality, decided on the canonical representatives.
    pub fn equals(self, other: Self) -> (r: bool)
        ensures
            r <==> self == other,
            r <==> self.val() == other.val(),
    {
        proof {
            use_type_invariant(self);
            use_type_invariant(other);
            self.lemma_val_is_raw();
            other.lemma_val_is_raw();
        }
        self.v == other.v
    }

    pub fn is_zero(self) -> (r: bool)
        ensures
            r <==> self.val() == 0,
    {
        proof {
            use_type_invariant(self);
            self.lemma_val_is_raw();
        }
        self.v == 0
    }

    pub fn add(self, other: Self) -> (r: Self)
        ensures
            r.val() == fadd(self.val(), other.val()),
    {
        proof {
            use_type_invariant(self);
            use_type_invariant(other);
            self.lemma_val_is_raw();
            other.lemma_val_is_raw();
        }
        let s: u32 = self.v + other.v;
        let out: u32 = if s >= P {
            s - P
        } else {
            s
        };
        proof {
            if s >= P {
                lemma_mod_multiples_vanish(1, out as int, P as int);
            }
            lemma_small_mod(out as nat, P as nat);
        }
        Mersenne31 { v: out }
    }

    pub fn sub(self, other: Self) -> (r: Self)
        ensures
            r.val() == fsub(self.val(), other.val()),
    {
        proof {
            use_type_invariant(self);
            use_type_invariant(other);
            self.lemma_val_is_raw();
            other.lemma_val_is_raw();
        }
        let out: u32 = if self.v >= other.v {
            self.v - other.v
        } else {
            self.v + P - other.v
        };
        proof {
            if self.v < other.v {
                lemma_mod_multiples_vanish(1, self.v as int - other.v as int, P as int);
            }
            lemma_small_mod(out as nat, P as nat);
        }
        Mersenne31 { v: out }
    }

    pub fn neg(self) -> (r: Self)
        ensures
            r.val() == fsub(0, self.val()),
    {
        Self::zero().sub(self)
    }

    pub fn mul(self, other: Self) -> (r: Self)
        ensures
            r.val() == fmul(self.val(), other.val()),
    {
        proof {
            use_type_invariant(self);
            use_type_invariant(other);
            self.lemma_val_is_raw();
            other.lemma_val_is_raw();
            assert((self.v as u64) * (other.v as u64) <= 0x3fff_fffe_0000_0004) by (nonlinear_arith)
                requires
                    self.v < 0x7fff_ffff,
                    other.v < 0x7fff_ffff,
            ;
        }
        let prod: u64 = (self.v as u64) * (other.v as u64);
        let lo: u64 = prod & 0x7fff_ffff;
        let hi: u64 = prod >> 31;
        proof {
            vstd::arithmetic::power2::lemma2_to64();
            lemma_u64_low_bits_mask_is_mod(prod, 31);
            lemma_u64_shr_is_div(prod, 31);
            vstd::arithmetic::div_mod::lemma_fundamental_div_mod(prod as int, 0x8000_0000);
            assert(hi <= 0x7fff_fffc) by {
                vstd::arithmetic::div_mod::lemma_div_is_ordered(
                    prod as int,
                    0x3fff_fffe_0000_0004,
                    0x8000_0000,
                );
            };
            assert(prod == hi * 0x8000_0000 + lo);
        }
        let s: u64 = lo + hi;
        let out: u32 = if s >= P as u64 {
            (s - P as u64) as u32
        } else {
            s as u32
        };
        proof {
            // hi * 2^31 + lo == hi * P + (hi + lo), so they agree modulo P.
            lemma_mod_multiples_vanish(hi as int, hi as int + lo as int, P as int);
            if s >= P as u64 {
                lemma_mod_multiples_vanish(1, out as int, P as int);
            }
            lemma_small_mod(out as nat, P as nat);
        }
        Mersenne31 { v: out }
    }

    pub fn square(self) -> (r: Self)
        ensures
            r.val() == fmul(self.val(), self.val()),
    {
        self.mul(self)
    }

    pub fn double(self) -> (r: Self)
        ensures
            r.val() == fadd(self.val(), self.val()),
    {
        self.add(self)
    }

    /// Binary exponentiation.
    pub fn exp_u64(self, e: u64) -> (r: Self)
        ensures
            r.val() == fpow(self.val(), e as nat),
    {
        proof {
            use_type_invariant(self);
        }
        let mut acc = Mersenne31::one();
        let mut base = self;
        let mut rem: u64 = e;
        proof {
            lemma_fpow_zero(self.val());
        }
        while rem > 0
            invariant
                0 <= acc.val() < P,
                0 <= base.val() < P,
                fmul(acc.val(), fpow(base.val(), rem as nat)) == fpow(self.val(), e as nat),
            decreases rem,
        {
            proof {
                use_type_invariant(acc);
                use_type_invariant(base);
                if rem % 2 == 1 {
                    lemma_fpow_unfold_odd(acc.val(), base.val(), rem as nat);
                } else {
                    lemma_fpow_unfold_even(acc.val(), base.val(), rem as nat);
                }
            }
            if rem % 2 == 1 {
                acc = acc.mul(base);
            }
            base = base.square();
            rem = rem / 2;
        }
        proof {
            use_type_invariant(acc);
            assert(fpow(base.val(), 0) == 1);
            lemma_mul_mod_noop_general(acc.val(), 1, P as int);
            lemma_small_mod(acc.val() as nat, P as nat);
        }
        acc
    }

    /// The multiplicative inverse, by Fermat exponentiation.
    ///
    /// The candidate from the exponentiation is checked at run time, and by
    /// Fermat's little theorem the check always passes; the exhaustive scan
    /// after it is never reached, but it gives the verifier a terminating
    /// search for the witness that the precondition promises.
    pub fn inverse(self) -> (r: Self)
        requires
            finv_exists(self.val()),
        ensures
            0 <= r.val() < P,
            fmul(r.val(), self.val()) == 1,
            r.val() == finv(self.val()),
            self.val() != 0,
    {
        proof {
            use_type_invariant(self);
            lemma_zero_has_no_inverse(self.val());
        }
        let cand = self.exp_u64((P - 2) as u64);
        proof {
            use_type_invariant(cand);
        }
        let check = cand.mul(self);
        if check.as_canonical_u32() == 1 {
            proof {
                lemma_finv_unique(cand.val(), self.val());
            }
            return cand;
        }
        let mut i: u32 = 0;
        while i < P
            invariant
                finv_exists(self.val()),
                0 <= self.val() < P,
                forall|x: int| 0 <= x < i ==> #[trigger] (x * self.val()) % (P as int) != 1,
            decreases P - i,
        {
            let c = Mersenne31 { v: i };
            proof {
                c.lemma_val_is_raw();
            }
            let check2 = c.mul(self);
            if check2.as_canonical_u32() == 1 {
                proof {
                    lemma_finv_unique(c.val(), self.val());
                }
                return c;
            }
            i = i + 1;
        }
        proof {
            assert(false);
        }
        cand
    }
}

/// Zero has no inverse: every product with zero reduces to zero.
proof fn lemma_zero_has_no_inverse(a: int)
    requires
        finv_exists(a),
    ensures
        a != 0,
{
    if a == 0 {
        let r = choose|r: int| 0 <= r < P && #[trigger] (r * a) % (P as int) == 1;
        lemma_small_mod(0, P as nat);
    }
}

/// Every field element's canonical value lies in `[0, P)`.
pub broadcast proof fn lemma_val_bound(m: Mersenne31)
    ensures
        0 <= #[trigger] m.val() < P,
{
}

proof fn lemma_fpow_zero(a: int)
    ensures
        fpow(a, 0) == 1,
{
}

/// `acc * a^(2k+1) == (acc*a) * (a*a)^k` modulo `P`, stated over reduced products.
proof fn lemma_fpow_unfold_odd(acc: int, a: int, e: nat)
    requires
        0 <= acc < P,
        0 <= a < P,
        e % 2 == 1,
    ensures
        fmul(fmul(acc, a), fpow(fmul(a, a), (e / 2) as nat)) == fmul(acc, fpow(a, e)),
{
    lemma_fpow_square(a, (e / 2) as nat);
    let ps = fpow(fmul(a, a), (e / 2) as nat);
    assert(fpow(a, (2 * (e / 2)) as nat) == ps);
    assert(e == 2 * (e / 2) + 1);
    lemma_fpow_succ(a, (2 * (e / 2)) as nat);
    // fpow(a, e) == (ps * a) % P
    assert(fpow(a, e) == (ps * a) % (P as int));
    lemma_mul_mod_noop_general(acc * a, ps, P as int);
    lemma_mul_mod_noop_general(acc, ps * a, P as int);
    assert((acc * a) * ps == acc * (ps * a)) by (nonlinear_arith);
}

/// `acc * a^(2k) == acc * (a*a)^k` modulo `P`.
proof fn lemma_fpow_unfold_even(acc: int, a: int, e: nat)
    requires
        0 <= acc < P,
        0 <= a < P,
        e % 2 == 0,
    ensures
        fmul(acc, fpow(fmul(a, a), (e / 2) as nat)) == fmul(acc, fpow(a, e)),
{
    lemma_fpow_square(a, (e / 2) as nat);
    assert(e == 2 * (e / 2));
}

/// `a^(e+1) == a^e * a` in reduced form.
proof fn lemma_fpow_succ(a: int, e: nat)
    ensures
        fpow(a, (e + 1) as nat) == (fpow(a, e) * a) % (P as int),
{
}

/// `a^(2k) == (a^2 mod P)^k` modulo `P`.
proof fn lemma_fpow_square(a: int, k: nat)
    requires
        0 <= a < P,
    ensures
        fpow(a, (2 * k) as nat) == fpow(fmul(a, a), k),
    decreases k,
{
    if k == 0 {
    } else {
        lemma_fpow_square(a, (k - 1) as nat);
        let prev = fpow(a, (2 * (k - 1)) as nat);
        lemma_fpow_succ(a, (2 * (k - 1)) as nat);
        lemma_fpow_succ(a, (2 * (k - 1) + 1) as nat);
        // fpow(a, 2k) == ((prev * a) % P * a) % P == (prev * (a*a)) % P
        lemma_mul_mod_noop_general(prev * a, a, P as int);
        assert((prev * a) * a == prev * (a * a)) by (nonlinear_arith);
        // fpow(a*a % P, k) == (fpow(a*a % P, k-1) * (a*a % P)) % P
        lemma_mul_mod_noop_general(prev, a * a, P as int);
    }
}

/// Inverses are unique among canonical representatives.
proof fn lemma_finv_unique(r: int, a: int)
    requires
        0 <= r < P,
        (r * a) % (P as int) == 1,
    ensures
        finv(a) == r,
{
    assert(exists|x: int| 0 <= x < P && #[trigger] (x * a) % (P as int) == 1) by {
        assert(0 <= r < P && (r * a) % (P as int) == 1);
    };
    let w = finv(a);
    // w * (r * a) == r * (w * a) modulo P, hence w == r.
    lemma_mul_mod_noop_general(w, r * a, P as int);
    lemma_mul_mod_noop_general(r, w * a, P as int);
    assert(w * (r * a) == r * (w * a)) by (nonlinear_arith);
    lemma_small_mod(w as nat, P as nat);
    lemma_small_mod(r as nat, P as nat);
    assert((w * 1) % (P as int) == w % (P as int));
    assert((r * 1) % (P as int) == r % (P as int));
}

} // verus!
