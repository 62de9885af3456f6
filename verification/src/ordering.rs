//! The cfft ordering: the bit-reversal-style permutation relating the
//! natural enumeration of a circle domain to the order the butterfly
//! network produces.

use vstd::prelude::*;
use vstd::arithmetic::power2::pow2;

verus! {

/// The reversal of the low `bits` bits of `i`.
pub open spec fn rev_bits(i: nat, bits: nat) -> nat
    decreases bits,
{
    if bits == 0 {
        0
    } else {
        rev_bits(i / 2, (bits - 1) as nat) + (i % 2) * pow2((bits - 1) as nat)
    }
}

/// Bit reversal stays below `2^bits`.
pub proof fn lemma_rev_bits_bound(i: nat, bits: nat)
    ensures
        rev_bits(i, bits) < pow2(bits),
    decreases bits,
{
    vstd::arithmetic::power2::lemma_pow2_pos(bits);
    if bits > 0 {
        lemma_rev_bits_bound(i / 2, (bits - 1) as nat);
        vstd::arithmetic::power2::lemma_pow2_unfold(bits);
        if i % 2 == 0 {
            assert(rev_bits(i, bits) == rev_bits(i / 2, (bits - 1) as nat));
        } else {
            assert(rev_bits(i, bits) == rev_bits(i / 2, (bits - 1) as nat) + pow2(
                (bits - 1) as nat,
            ));
        }
    }
}

/// The cfft permutation: natural index `i` of a domain of size `2^log_n`
/// maps to the full-coset index `rev_bits(j, log_n)` where `j` folds the
/// second half-coset backwards onto the first.
pub open spec fn cfft_perm(log_n: nat, i: nat) -> nat {
    if i % 2 == 0 {
        rev_bits(i / 2, log_n)
    } else {
        rev_bits((pow2(log_n) - 1 - i / 2) as nat, log_n)
    }
}

/// The permutation stays below the domain size.
pub proof fn lemma_cfft_perm_bound(log_n: nat, i: nat)
    ensures
        cfft_perm(log_n, i) < pow2(log_n),
{
    if i % 2 == 0 {
        lemma_rev_bits_bound(i / 2, log_n);
    } else {
        lemma_rev_bits_bound((pow2(log_n) - 1 - i / 2) as nat, log_n);
    }
}

/// Executable bit reversal.
pub fn reverse_bits_exec(i: usize, bits: usize) -> (r: usize)
    requires
        bits <= 30,
    ensures
        r == rev_bits(i as nat, bits as nat),
        r < pow2(bits as nat),
{
    let mut x: usize = i;
    let mut r: usize = 0;
    let mut j: usize = 0;
    proof {
        lemma_rev_bits_bound(i as nat, bits as nat);
        vstd::arithmetic::power2::lemma2_to64();
    }
    while j < bits
        invariant
            0 <= j <= bits,
            bits <= 30,
            rev_bits(i as nat, bits as nat) == r * pow2((bits - j) as nat) + rev_bits(
                x as nat,
                (bits - j) as nat,
            ),
            r < pow2(j as nat),
        decreases bits - j,
    {
        proof {
            vstd::arithmetic::power2::lemma_pow2_unfold((bits - j) as nat);
            vstd::arithmetic::power2::lemma_pow2_unfold((j + 1) as nat);
            lemma_rev_bits_bound(x as nat, (bits - j) as nat);
            vstd::arithmetic::power2::lemma_pow2_pos((bits - j - 1) as nat);
            assert(r * pow2((bits - j) as nat) == (2 * r) * pow2((bits - j - 1) as nat))
                by (nonlinear_arith)
                requires
                    pow2((bits - j) as nat) == 2 * pow2((bits - j - 1) as nat),
            ;
            assert((2 * r + (x as nat) % 2) * pow2((bits - j - 1) as nat) == (2 * r) * pow2(
                (bits - j - 1) as nat,
            ) + ((x as nat) % 2) * pow2((bits - j - 1) as nat)) by (nonlinear_arith);
            assert(pow2(j as nat) < pow2(31)) by {
                vstd::arithmetic::power2::lemma_pow2_strictly_increases(j as nat, 31);
            };
            assert(pow2(31) == 0x8000_0000) by {
                vstd::arithmetic::power2::lemma2_to64();
            };
        }
        r = 2 * r + x % 2;
        x = x / 2;
        j = j + 1;
    }
    proof {
        assert(pow2(0) == 1) by {
            vstd::arithmetic::power2::lemma2_to64();
        };
        assert(rev_bits(x as nat, 0) == 0);
        assert(r * pow2(0) == r * 1 == r);
        assert(rev_bits(i as nat, bits as nat) == r);
    }
    r
}

/// Executable cfft permutation.
pub fn cfft_permute_index(index: usize, log_n: usize) -> (r: usize)
    requires
        1 <= log_n <= 30,
        index < pow2((log_n + 1) as nat),
    ensures
        r == cfft_perm(log_n as nat, index as nat),
        r < pow2(log_n as nat),
{
    let lsb: usize = index % 2;
    let i: usize = index / 2;
    proof {
        vstd::arithmetic::power2::lemma2_to64();
        vstd::arithmetic::power2::lemma_pow2_unfold((log_n + 1) as nat);
        assert(pow2(log_n as nat) <= pow2(30)) by {
            if log_n < 30 {
                vstd::arithmetic::power2::lemma_pow2_strictly_increases(log_n as nat, 30);
            }
        };
    }
    let n: usize = 1usize << log_n;
    proof {
        vstd::bits::lemma_usize_pow2_no_overflow(log_n as nat);
        vstd::bits::lemma_usize_shl_is_mul(1usize, log_n);
    }
    if lsb == 0 {
        reverse_bits_exec(i, log_n)
    } else {
        reverse_bits_exec(n - 1 - i, log_n)
    }
}

/// Splitting off the high bit: the reversal of `z` is twice the reversal
/// of its low bits, plus its high bit.
pub proof fn lemma_rev_bits_dual(z: nat, bits: nat)
    requires
        bits >= 1,
        z < pow2(bits),
    ensures
        rev_bits(z, bits) == 2 * rev_bits(z % pow2((bits - 1) as nat), (bits - 1) as nat) + z
            / pow2((bits - 1) as nat),
    decreases bits,
{
    vstd::arithmetic::power2::lemma2_to64();
    if bits == 1 {
        assert(z % pow2(0) == 0) by {
            assert(pow2(0) == 1);
        };
        assert(rev_bits(z, 1) == rev_bits(z / 2, 0) + (z % 2) * pow2(0));
    } else {
        let b1 = (bits - 1) as nat;
        let b2 = (bits - 2) as nat;
        vstd::arithmetic::power2::lemma_pow2_unfold(bits);
        vstd::arithmetic::power2::lemma_pow2_unfold(b1);
        vstd::arithmetic::power2::lemma_pow2_pos(b1);
        vstd::arithmetic::power2::lemma_pow2_pos(b2);
        let q = z / pow2(b1);
        let r = z % pow2(b1);
        vstd::arithmetic::div_mod::lemma_fundamental_div_mod(z as int, pow2(b1) as int);
        assert(z == pow2(b1) * q + r);
        assert(q < 2) by {
            vstd::arithmetic::div_mod::lemma_multiply_divide_lt(
                z as int,
                pow2(b1) as int,
                2,
            );
            assert(z < pow2(b1) * 2) by (nonlinear_arith)
                requires
                    z < pow2(bits),
                    pow2(bits) == 2 * pow2(b1),
            ;
        };
        // z / 2 decomposes as q * 2^(b-2) + r / 2
        assert(z == 2 * (q * pow2(b2) as int) + r) by (nonlinear_arith)
            requires
                z == pow2(b1) * q + r,
                pow2(b1) == 2 * pow2(b2),
        ;
        vstd::arithmetic::div_mod::lemma_fundamental_div_mod(r as int, 2);
        let rh = r / 2;
        let rb = r % 2;
        assert(z == 2 * (q * pow2(b2) as int + rh) + rb);
        vstd::arithmetic::div_mod::lemma_fundamental_div_mod_converse(
            z as int,
            2,
            q * pow2(b2) as int + rh,
            rb as int,
        );
        assert(z / 2 == q * pow2(b2) + rh);
        assert(z % 2 == rb);
        // z/2 mod and div by 2^(b-2)
        assert(rh < pow2(b2)) by {
            vstd::arithmetic::div_mod::lemma_multiply_divide_lt(r as int, 2, pow2(b2) as int);
            assert(r < 2 * pow2(b2));
        };
        vstd::arithmetic::div_mod::lemma_fundamental_div_mod_converse(
            (z / 2) as int,
            pow2(b2) as int,
            q as int,
            rh as int,
        );
        assert((z / 2) % pow2(b2) == rh);
        assert((z / 2) / pow2(b2) == q);
        // r mod 2 equals z mod 2, and r / 2 is below 2^(b-2)
        lemma_rev_bits_dual((z / 2) as nat, b1);
        // rev(z, bits) = rev(z/2, b1) + (z%2) * 2^(b-1)
        // rev(r, b1) = rev(r/2, b2) + (r%2) * 2^(b-2)
        assert(rev_bits(r, b1) == rev_bits(rh, b2) + rb * pow2(b2));
        assert(rev_bits(z, bits) == rev_bits((z / 2) as nat, b1) + rb * pow2(b1));
        assert(rev_bits((z / 2) as nat, b1) == 2 * rev_bits(rh, b2) + q);
        assert(rb * pow2(b1) == 2 * (rb * pow2(b2))) by (nonlinear_arith)
            requires
                pow2(b1) == 2 * pow2(b2),
        ;
    }
}

/// Bit reversal commutes with bitwise complement.
pub proof fn lemma_rev_bits_complement(z: nat, bits: nat)
    requires
        z < pow2(bits),
    ensures
        rev_bits((pow2(bits) - 1 - z) as nat, bits) == pow2(bits) - 1 - rev_bits(z, bits),
    decreases bits,
{
    vstd::arithmetic::power2::lemma2_to64();
    if bits == 0 {
        assert(pow2(0) == 1);
    } else {
        let b1 = (bits - 1) as nat;
        vstd::arithmetic::power2::lemma_pow2_unfold(bits);
        vstd::arithmetic::power2::lemma_pow2_pos(b1);
        let m = z / 2;
        let sbit = z % 2;
        vstd::arithmetic::div_mod::lemma_fundamental_div_mod(z as int, 2);
        let c = (pow2(bits) - 1 - z) as nat;
        assert(c == 2 * (pow2(b1) - 1 - m) + (1 - sbit));
        assert(m < pow2(b1)) by {
            vstd::arithmetic::div_mod::lemma_multiply_divide_lt(z as int, 2, pow2(b1) as int);
        };
        vstd::arithmetic::div_mod::lemma_fundamental_div_mod_converse(
            c as int,
            2,
            pow2(b1) as int - 1 - m,
            1 - sbit as int,
        );
        assert(c / 2 == pow2(b1) - 1 - m);
        assert(c % 2 == 1 - sbit);
        lemma_rev_bits_complement(m, b1);
        lemma_rev_bits_bound(m, b1);
        assert(rev_bits(c, bits) == rev_bits((pow2(b1) - 1 - m) as nat, b1) + (1 - sbit) * pow2(
            b1,
        ));
        assert(rev_bits(z, bits) == rev_bits(m, b1) + sbit * pow2(b1));
        assert((1 - sbit) * pow2(b1) == pow2(b1) - sbit * pow2(b1)) by (nonlinear_arith);
        assert(rev_bits(c, bits) == pow2(b1) - 1 - rev_bits(m, b1) + pow2(b1) - sbit * pow2(b1));
    }
}

/// Bit reversal is an involution.
pub proof fn lemma_rev_bits_involution(z: nat, bits: nat)
    requires
        z < pow2(bits),
    ensures
        rev_bits(rev_bits(z, bits), bits) == z,
    decreases bits,
{
    vstd::arithmetic::power2::lemma2_to64();
    if bits == 0 {
        assert(pow2(0) == 1);
    } else {
        let b1 = (bits - 1) as nat;
        vstd::arithmetic::power2::lemma_pow2_unfold(bits);
        vstd::arithmetic::power2::lemma_pow2_pos(b1);
        let m = z / 2;
        let sbit = z % 2;
        vstd::arithmetic::div_mod::lemma_fundamental_div_mod(z as int, 2);
        assert(m < pow2(b1)) by {
            vstd::arithmetic::div_mod::lemma_multiply_divide_lt(z as int, 2, pow2(b1) as int);
        };
        let rm = rev_bits(m, b1);
        lemma_rev_bits_bound(m, b1);
        lemma_rev_bits_involution(m, b1);
        assert(rev_bits(z, bits) == rm + sbit * pow2(b1));
        let arg = (rm + sbit * pow2(b1)) as nat;
        assert(arg < pow2(bits)) by {
            lemma_rev_bits_bound(z, bits);
        };
        vstd::arithmetic::div_mod::lemma_fundamental_div_mod_converse(
            arg as int,
            pow2(b1) as int,
            sbit as int,
            rm as int,
        );
        assert(arg % pow2(b1) == rm);
        assert(arg / pow2(b1) == sbit);
        lemma_rev_bits_dual(arg, bits);
        assert(rev_bits(arg, bits) == 2 * rev_bits(rm, b1) + sbit);
        assert(2 * m + sbit == z);
    }
}

/// The cfft permutation is an involution on the indices of a domain of
/// size `2^log_n`.
pub proof fn lemma_cfft_perm_involution(log_n: nat, i: nat)
    requires
        log_n >= 1,
        i < pow2(log_n),
    ensures
        cfft_perm(log_n, cfft_perm(log_n, i)) == i,
{
    vstd::arithmetic::power2::lemma2_to64();
    let b1 = (log_n - 1) as nat;
    vstd::arithmetic::power2::lemma_pow2_unfold(log_n);
    vstd::arithmetic::power2::lemma_pow2_pos(b1);
    let m = i / 2;
    let sbit = i % 2;
    vstd::arithmetic::div_mod::lemma_fundamental_div_mod(i as int, 2);
    assert(m < pow2(b1)) by {
        vstd::arithmetic::div_mod::lemma_multiply_divide_lt(i as int, 2, pow2(b1) as int);
    };
    if sbit == 0 {
        // the image is even: twice the (log_n - 1)-bit reversal
        let p = cfft_perm(log_n, i);
        assert(p == rev_bits(m, log_n));
        lemma_rev_bits_dual(m, log_n);
        assert(m % pow2(b1) == m) by {
            vstd::arithmetic::div_mod::lemma_small_mod(m, pow2(b1));
        };
        assert(m / pow2(b1) == 0) by {
            vstd::arithmetic::div_mod::lemma_basic_div(m as int, pow2(b1) as int);
        };
        assert(p == 2 * rev_bits(m, b1));
        let rm = rev_bits(m, b1);
        lemma_rev_bits_bound(m, b1);
        vstd::arithmetic::div_mod::lemma_fundamental_div_mod_converse(p as int, 2, rm as int, 0);
        assert(p % 2 == 0 && p / 2 == rm);
        // and applying the permutation again undoes the reversal
        assert(cfft_perm(log_n, p) == rev_bits(rm, log_n));
        lemma_rev_bits_dual(rm, log_n);
        assert(rm % pow2(b1) == rm) by {
            vstd::arithmetic::div_mod::lemma_small_mod(rm, pow2(b1));
        };
        assert(rm / pow2(b1) == 0) by {
            vstd::arithmetic::div_mod::lemma_basic_div(rm as int, pow2(b1) as int);
        };
        lemma_rev_bits_involution(m, b1);
        assert(cfft_perm(log_n, p) == 2 * m);
    } else {
        let p = cfft_perm(log_n, i);
        let c = (pow2(log_n) - 1 - m) as nat;
        assert(p == rev_bits(c, log_n));
        // the complemented index has its high bit set
        assert(c >= pow2(b1));
        assert(c < pow2(log_n));
        let u = (c - pow2(b1)) as nat;
        assert(u == pow2(b1) - 1 - m);
        vstd::arithmetic::div_mod::lemma_fundamental_div_mod_converse(
            c as int,
            pow2(b1) as int,
            1,
            u as int,
        );
        assert(c % pow2(b1) == u && c / pow2(b1) == 1);
        lemma_rev_bits_dual(c, log_n);
        let ru = rev_bits(u, b1);
        assert(p == 2 * ru + 1);
        lemma_rev_bits_bound(u, b1);
        // applying the permutation again reflects and reverses back
        assert(p % 2 == 1 && p / 2 == ru) by {
            vstd::arithmetic::div_mod::lemma_fundamental_div_mod_converse(
                p as int,
                2,
                ru as int,
                1,
            );
        };
        let c2 = (pow2(log_n) - 1 - ru) as nat;
        assert(cfft_perm(log_n, p) == rev_bits(c2, log_n));
        lemma_rev_bits_complement(ru, log_n);
        assert(rev_bits(c2, log_n) == pow2(log_n) - 1 - rev_bits(ru, log_n));
        lemma_rev_bits_dual(ru, log_n);
        assert(ru % pow2(b1) == ru) by {
            vstd::arithmetic::div_mod::lemma_small_mod(ru, pow2(b1));
        };
        assert(ru / pow2(b1) == 0) by {
            vstd::arithmetic::div_mod::lemma_basic_div(ru as int, pow2(b1) as int);
        };
        lemma_rev_bits_involution(u, b1);
        assert(rev_bits(ru, log_n) == 2 * u);
        assert(cfft_perm(log_n, p) == pow2(log_n) - 1 - 2 * (pow2(b1) - 1 - m));
        assert(pow2(log_n) - 1 - 2 * (pow2(b1) as int - 1 - m) == 2 * m + 1);
    }
}

} // verus!
