//! The column schema of a Blake3 AIR in which every trace row carries one
//! full compression: the message bits, chaining values, per-round
//! intermediate states with modular-addition carries, and the outputs.
//! A row is also viewable as a flat vector of `NUM_BLAKE3_COLS` cells; the
//! conversions here realise that view with explicit indexed accessors.

use vstd::prelude::*;
use crate::field::{fadd, fmul, Mersenne31};

verus! {

/// A 32-bit word is split into this many 16-bit limbs.
pub const U32_LIMBS: usize = 2;

/// The number of cells in one trace row.
pub const NUM_BLAKE3_COLS: usize = 9616;

/// A state at a single instant: rows 0 and 2 as 16-bit limbs, rows 1 and 3
/// as 32 boolean bits.
#[derive(Clone, Copy, Debug)]
pub struct Blake3State {
    pub row0: [[Mersenne31; 2]; 4],
    pub row1: [[Mersenne31; 32]; 4],
    pub row2: [[Mersenne31; 2]; 4],
    pub row3: [[Mersenne31; 32]; 4],
}

/// The columns of one full round: 8 quarter-round applications, with the
/// carry witnesses of the modular additions.
#[derive(Clone, Copy, Debug)]
pub struct FullRound {
    /// After the first halves of the four column mixers.
    pub state_prime: Blake3State,
    /// Carry pairs (mod `2^32`, mod `2^16`) of the column mixers.
    pub aux_columns: [[[Mersenne31; 2]; 4]; 4],
    /// After the full column mixers.
    pub state_middle: Blake3State,
    /// After the first halves of the diagonal mixers.
    pub state_middle_prime: Blake3State,
    /// Carry pairs of the diagonal mixers.
    pub aux_diagonals: [[[Mersenne31; 2]; 4]; 4],
    /// After the full round; the input of the next row.
    pub state_output: Blake3State,
}

/// One trace row of the Blake3 AIR.
#[derive(Clone, Copy, Debug)]
pub struct Blake3Cols {
    /// The sixteen input message words, bit-decomposed.
    pub inputs: [[Mersenne31; 32]; 16],
    /// The first eight outputs of the previous compression.
    pub chaining_values: [[[Mersenne31; 32]; 4]; 2],
    pub counter_low: [Mersenne31; 32],
    pub counter_hi: [Mersenne31; 32],
    pub block_len: [Mersenne31; 32],
    pub flags: [Mersenne31; 32],
    /// The limbed initial values of rows 0 and 2.
    pub initial_row0: [[Mersenne31; 2]; 4],
    pub initial_row2: [[Mersenne31; 2]; 4],
    pub full_rounds: [FullRound; 7],
    pub final_round_helpers: [[Mersenne31; 32]; 4],
    pub outputs: [[[Mersenne31; 32]; 4]; 4],
}

/// Four limb pairs, flattened.
pub open spec fn flat2x4(a: [[Mersenne31; 2]; 4]) -> Seq<Mersenne31> {
    a@[0]@ + a@[1]@ + a@[2]@ + a@[3]@
}

/// Four bit words, flattened.
pub open spec fn flat32x4(a: [[Mersenne31; 32]; 4]) -> Seq<Mersenne31> {
    a@[0]@ + a@[1]@ + a@[2]@ + a@[3]@
}

/// Sixteen bit words, flattened.
pub open spec fn flat32x16(a: [[Mersenne31; 32]; 16]) -> Seq<Mersenne31> {
    a@[0]@ + a@[1]@ + a@[2]@ + a@[3]@ + a@[4]@ + a@[5]@ + a@[6]@ + a@[7]@ + a@[8]@ + a@[9]@ + a@[10]@ + a@[11]@ + a@[12]@ + a@[13]@ + a@[14]@ + a@[15]@
}

/// A carry table, flattened.
pub open spec fn flat_aux(a: [[[Mersenne31; 2]; 4]; 4]) -> Seq<Mersenne31> {
    flat2x4(a@[0]) + flat2x4(a@[1]) + flat2x4(a@[2]) + flat2x4(a@[3])
}

/// A state, flattened in field order.
pub open spec fn flat_state(s: Blake3State) -> Seq<Mersenne31> {
    flat2x4(s.row0) + flat32x4(s.row1) + flat2x4(s.row2) + flat32x4(s.row3)
}

/// A full round, flattened in field order.
pub open spec fn flat_round(r: FullRound) -> Seq<Mersenne31> {
    flat_state(r.state_prime) + flat_aux(r.aux_columns) + flat_state(r.state_middle)
        + flat_state(r.state_middle_prime) + flat_aux(r.aux_diagonals) + flat_state(r.state_output)
}

/// A whole row, flattened in field order.
pub open spec fn flat_cols(c: Blake3Cols) -> Seq<Mersenne31> {
    flat32x16(c.inputs) + flat32x4(c.chaining_values@[0]) + flat32x4(c.chaining_values@[1])
        + c.counter_low@ + c.counter_hi@ + c.block_len@ + c.flags@ + flat2x4(c.initial_row0)
        + flat2x4(c.initial_row2)
    + flat_round(c.full_rounds@[0])
    + flat_round(c.full_rounds@[1])
    + flat_round(c.full_rounds@[2])
    + flat_round(c.full_rounds@[3])
    + flat_round(c.full_rounds@[4])
    + flat_round(c.full_rounds@[5])
    + flat_round(c.full_rounds@[6])
    + flat32x4(c.final_round_helpers)
    + flat32x4(c.outputs@[0])
    + flat32x4(c.outputs@[1])
    + flat32x4(c.outputs@[2])
    + flat32x4(c.outputs@[3])
}

fn push_arr2(out: &mut Vec<Mersenne31>, a: &[Mersenne31; 2])
    ensures
        final(out)@ == old(out)@ + a@,
{
    let x0 = a[0];
    let x1 = a[1];
    out.push(x0);
    out.push(x1);
    proof {
        assert(final(out)@ =~= old(out)@ + a@);
    }
}

fn push_arr32(out: &mut Vec<Mersenne31>, a: &[Mersenne31; 32])
    ensures
        final(out)@ == old(out)@ + a@,
{
    let mut i: usize = 0;
    while i < 32
        invariant
            0 <= i <= 32,
            out@ == old(out)@ + a@.subrange(0, i as int),
        decreases 32 - i,
    {
        let x = a[i];
        out.push(x);
        proof {
            assert(out@ =~= old(out)@ + a@.subrange(0, i + 1));
        }
        i = i + 1;
    }
    proof {
        assert(a@.subrange(0, 32) =~= a@);
    }
}

fn push_2x4(out: &mut Vec<Mersenne31>, a: &[[Mersenne31; 2]; 4])
    ensures
        final(out)@ == old(out)@ + flat2x4(*a),
{
    push_arr2(out, &a[0]);
    push_arr2(out, &a[1]);
    push_arr2(out, &a[2]);
    push_arr2(out, &a[3]);
    proof {
        assert(final(out)@ =~= old(out)@ + flat2x4(*a));
    }
}

fn push_32x4(out: &mut Vec<Mersenne31>, a: &[[Mersenne31; 32]; 4])
    ensures
        final(out)@ == old(out)@ + flat32x4(*a),
{
    push_arr32(out, &a[0]);
    push_arr32(out, &a[1]);
    push_arr32(out, &a[2]);
    push_arr32(out, &a[3]);
    proof {
        assert(final(out)@ =~= old(out)@ + flat32x4(*a));
    }
}

fn push_aux(out: &mut Vec<Mersenne31>, a: &[[[Mersenne31; 2]; 4]; 4])
    ensures
        final(out)@ == old(out)@ + flat_aux(*a),
{
    push_2x4(out, &a[0]);
    push_2x4(out, &a[1]);
    push_2x4(out, &a[2]);
    push_2x4(out, &a[3]);
    proof {
        assert(final(out)@ =~= old(out)@ + flat_aux(*a));
    }
}

fn push_state(out: &mut Vec<Mersenne31>, s: &Blake3State)
    ensures
        final(out)@ == old(out)@ + flat_state(*s),
{
    push_2x4(out, &s.row0);
    push_32x4(out, &s.row1);
    push_2x4(out, &s.row2);
    push_32x4(out, &s.row3);
    proof {
        assert(final(out)@ =~= old(out)@ + flat_state(*s));
    }
}

fn push_round(out: &mut Vec<Mersenne31>, r: &FullRound)
    ensures
        final(out)@ == old(out)@ + flat_round(*r),
{
    push_state(out, &r.state_prime);
    push_aux(out, &r.aux_columns);
    push_state(out, &r.state_middle);
    push_state(out, &r.state_middle_prime);
    push_aux(out, &r.aux_diagonals);
    push_state(out, &r.state_output);
    proof {
        assert(final(out)@ =~= old(out)@ + flat_round(*r));
    }
}

impl Blake3Cols {
    /// The row as a flat vector of `NUM_BLAKE3_COLS` cells, in field
    /// order.
    #[verifier::rlimit(100)]
    pub fn to_flat(&self) -> (r: Vec<Mersenne31>)
        ensures
            r@ == flat_cols(*self),
            r@.len() == NUM_BLAKE3_COLS,
    {
        let mut out: Vec<Mersenne31> = Vec::new();
        push_arr32(&mut out, &self.inputs[0]);
        push_arr32(&mut out, &self.inputs[1]);
        push_arr32(&mut out, &self.inputs[2]);
        push_arr32(&mut out, &self.inputs[3]);
        push_arr32(&mut out, &self.inputs[4]);
        push_arr32(&mut out, &self.inputs[5]);
        push_arr32(&mut out, &self.inputs[6]);
        push_arr32(&mut out, &self.inputs[7]);
        push_arr32(&mut out, &self.inputs[8]);
        push_arr32(&mut out, &self.inputs[9]);
        push_arr32(&mut out, &self.inputs[10]);
        push_arr32(&mut out, &self.inputs[11]);
        push_arr32(&mut out, &self.inputs[12]);
        push_arr32(&mut out, &self.inputs[13]);
        push_arr32(&mut out, &self.inputs[14]);
        push_arr32(&mut out, &self.inputs[15]);
        push_32x4(&mut out, &self.chaining_values[0]);
        push_32x4(&mut out, &self.chaining_values[1]);
        push_arr32(&mut out, &self.counter_low);
        push_arr32(&mut out, &self.counter_hi);
        push_arr32(&mut out, &self.block_len);
        push_arr32(&mut out, &self.flags);
        push_2x4(&mut out, &self.initial_row0);
        push_2x4(&mut out, &self.initial_row2);
        push_round(&mut out, &self.full_rounds[0]);
        push_round(&mut out, &self.full_rounds[1]);
        push_round(&mut out, &self.full_rounds[2]);
        push_round(&mut out, &self.full_rounds[3]);
        push_round(&mut out, &self.full_rounds[4]);
        push_round(&mut out, &self.full_rounds[5]);
        push_round(&mut out, &self.full_rounds[6]);
        push_32x4(&mut out, &self.final_round_helpers);
        push_32x4(&mut out, &self.outputs[0]);
        push_32x4(&mut out, &self.outputs[1]);
        push_32x4(&mut out, &self.outputs[2]);
        push_32x4(&mut out, &self.outputs[3]);
        proof {
            assert(out@ =~= flat_cols(*self));
        }
        out
    }
}

fn read_arr2(v: &Vec<Mersenne31>, off: usize) -> (r: [Mersenne31; 2])
    requires
        off + 2 <= v@.len(),
    ensures
        r@ == v@.subrange(off as int, off + 2),
{
    let _vl = v.len();
    let r = [v[off], v[off + 1]];
    proof {
        assert(r@ =~= v@.subrange(off as int, off + 2));
    }
    r
}

fn read_arr32(v: &Vec<Mersenne31>, off: usize) -> (r: [Mersenne31; 32])
    requires
        off + 32 <= v@.len(),
    ensures
        r@ == v@.subrange(off as int, off + 32),
{
    let _vl = v.len();
    let mut r = [Mersenne31::zero(); 32];
    let mut i: usize = 0;
    while i < 32
        invariant
            0 <= i <= 32,
            off + 32 <= v@.len(),
            v@.len() <= usize::MAX,
            r@.len() == 32,
            forall|q: int| 0 <= q < i ==> r@[q] == v@[off + q],
        decreases 32 - i,
    {
        r[i] = v[off + i];
        i = i + 1;
    }
    proof {
        assert(r@ =~= v@.subrange(off as int, off + 32));
    }
    r
}

fn read_2x4(v: &Vec<Mersenne31>, off: usize) -> (r: [[Mersenne31; 2]; 4])
    requires
        off + 8 <= v@.len(),
    ensures
        flat2x4(r) == v@.subrange(off as int, off + 8),
{
    let _vl = v.len();
    let r = [
        read_arr2(v, off),
        read_arr2(v, off + 2),
        read_arr2(v, off + 4),
        read_arr2(v, off + 6),
    ];
    proof {
        assert(flat2x4(r) =~= v@.subrange(off as int, off + 8));
    }
    r
}

fn read_32x4(v: &Vec<Mersenne31>, off: usize) -> (r: [[Mersenne31; 32]; 4])
    requires
        off + 128 <= v@.len(),
    ensures
        flat32x4(r) == v@.subrange(off as int, off + 128),
{
    let _vl = v.len();
    let r = [
        read_arr32(v, off),
        read_arr32(v, off + 32),
        read_arr32(v, off + 64),
        read_arr32(v, off + 96),
    ];
    proof {
        assert(flat32x4(r) =~= v@.subrange(off as int, off + 128));
    }
    r
}

fn read_aux(v: &Vec<Mersenne31>, off: usize) -> (r: [[[Mersenne31; 2]; 4]; 4])
    requires
        off + 32 <= v@.len(),
    ensures
        flat_aux(r) == v@.subrange(off as int, off + 32),
{
    let _vl = v.len();
    let r = [read_2x4(v, off), read_2x4(v, off + 8), read_2x4(v, off + 16), read_2x4(v, off + 24)];
    proof {
        assert(flat_aux(r) =~= v@.subrange(off as int, off + 32));
    }
    r
}

fn read_state(v: &Vec<Mersenne31>, off: usize) -> (r: Blake3State)
    requires
        off + 272 <= v@.len(),
    ensures
        flat_state(r) == v@.subrange(off as int, off + 272),
{
    let _vl = v.len();
    let r = Blake3State {
        row0: read_2x4(v, off),
        row1: read_32x4(v, off + 8),
        row2: read_2x4(v, off + 136),
        row3: read_32x4(v, off + 144),
    };
    proof {
        assert(flat_state(r) =~= v@.subrange(off as int, off + 272));
    }
    r
}

fn read_round(v: &Vec<Mersenne31>, off: usize) -> (r: FullRound)
    requires
        off + 1152 <= v@.len(),
    ensures
        flat_round(r) == v@.subrange(off as int, off + 1152),
{
    let _vl = v.len();
    let r = FullRound {
        state_prime: read_state(v, off),
        aux_columns: read_aux(v, off + 272),
        state_middle: read_state(v, off + 304),
        state_middle_prime: read_state(v, off + 576),
        aux_diagonals: read_aux(v, off + 848),
        state_output: read_state(v, off + 880),
    };
    proof {
        assert(flat_round(r) =~= v@.subrange(off as int, off + 1152));
    }
    r
}

impl Blake3Cols {
    /// Reinterpret a flat vector of `NUM_BLAKE3_COLS` cells as a
    /// structured row; the inverse of `to_flat`.
    #[verifier::rlimit(100)]
    pub fn from_flat(v: &Vec<Mersenne31>) -> (r: Self)
        requires
            v@.len() == NUM_BLAKE3_COLS,
        ensures
            flat_cols(r) == v@,
    {
        let r = Blake3Cols {
            inputs: [
                read_arr32(v, 0),
                read_arr32(v, 32),
                read_arr32(v, 64),
                read_arr32(v, 96),
                read_arr32(v, 128),
                read_arr32(v, 160),
                read_arr32(v, 192),
                read_arr32(v, 224),
                read_arr32(v, 256),
                read_arr32(v, 288),
                read_arr32(v, 320),
                read_arr32(v, 352),
                read_arr32(v, 384),
                read_arr32(v, 416),
                read_arr32(v, 448),
                read_arr32(v, 480),
            ],
            chaining_values: [read_32x4(v, 512), read_32x4(v, 640)],
            counter_low: read_arr32(v, 768),
            counter_hi: read_arr32(v, 800),
            block_len: read_arr32(v, 832),
            flags: read_arr32(v, 864),
            initial_row0: read_2x4(v, 896),
            initial_row2: read_2x4(v, 904),
            full_rounds: [
                read_round(v, 912),
                read_round(v, 2064),
                read_round(v, 3216),
                read_round(v, 4368),
                read_round(v, 5520),
                read_round(v, 6672),
                read_round(v, 7824),
            ],
            final_round_helpers: read_32x4(v, 8976),
            outputs: [
                read_32x4(v, 9104),
                read_32x4(v, 9232),
                read_32x4(v, 9360),
                read_32x4(v, 9488),
            ],
        };
        proof {
            assert(flat32x16(r.inputs) =~= v@.subrange(0, 512));
            assert(flat_cols(r) =~= v@);
        }
        r
    }
}

// ---------------------------------------------------------------------------
// The quarter-round constraint vocabulary.
// ---------------------------------------------------------------------------

/// The field value represented by a pair of 16-bit limbs.
pub open spec fn limb_val(a: Seq<Mersenne31>) -> int {
    fadd(a[0].val(), fmul(a[1].val(), 65536))
}

/// The field value represented by the first `n` bits of a bit column,
/// least significant first.
pub open spec fn bits_val(b: Seq<Mersenne31>, n: nat) -> int
    decreases n,
{
    if n == 0 {
        0
    } else {
        fadd(bits_val(b, (n - 1) as nat), fmul(b[(n - 1) as int].val(), crate::field::fpow(2, (n - 1) as nat)))
    }
}

/// The algebraic modular-addition obligation of a quarter round: with
/// `a`, `m` and the output in limb form, `b` in bit form, and the carry
/// pair `[carry_32, carry_16]`, the constraint demands
/// `a + b + m == out + carry_32 * 2^32` over the field, and the same for
/// the low limbs with `carry_16 * 2^16`.
pub open spec fn spec_sum_constraint(
    a: Seq<Mersenne31>,
    b: Seq<Mersenne31>,
    m: Seq<Mersenne31>,
    out: Seq<Mersenne31>,
    aux: Seq<Mersenne31>,
) -> bool {
    &&& fadd(fadd(limb_val(a), bits_val(b, 32)), limb_val(m)) == fadd(
        limb_val(out),
        fmul(aux[0].val(), 65536int * 65536),
    )
    &&& fadd(fadd(a[0].val(), bits_val(b, 16)), m[0].val()) == fadd(
        out[0].val(),
        fmul(aux[1].val(), 65536),
    )
}

/// Evaluate the first `n` bits of a bit column as a field value.
fn eval_bits(b: &[Mersenne31; 32], n: usize) -> (r: Mersenne31)
    requires
        n <= 32,
    ensures
        r.val() == bits_val(b@, n as nat),
{
    let mut acc = Mersenne31::zero();
    let mut pw = Mersenne31::one();
    let mut i: usize = 0;
    proof {
        assert(crate::field::fpow(2, 0) == 1);
    }
    while i < n
        invariant
            0 <= i <= n,
            n <= 32,
            acc.val() == bits_val(b@, i as nat),
            pw.val() == crate::field::fpow(2, i as nat),
        decreases n - i,
    {
        acc = acc.add(b[i].mul(pw));
        pw = pw.add(pw);
        proof {
            // 2^(i+1) = 2^i * 2, and doubling is multiplication by two
            assert(crate::field::fpow(2, (i + 1) as nat) == (crate::field::fpow(2, i as nat) * 2)
                % (crate::field::P as int));
            assert(fadd(pw.val(), pw.val()) == fmul(pw.val(), 2)) by {
                assert(pw.val() + pw.val() == pw.val() * 2) by (nonlinear_arith);
            };
        }
        i = i + 1;
    }
    acc
}

/// Evaluate a limb pair as a field value.
fn eval_limbs(a: &[Mersenne31; 2]) -> (r: Mersenne31)
    ensures
        r.val() == limb_val(a@),
{
    a[0].add(a[1].mul(Mersenne31::new(65536)))
}

/// Check one modular-addition obligation `out = a + b + m mod 2^32` of a
/// quarter round, with its carry witnesses.
pub fn check_sum_constraint(
    a: &[Mersenne31; 2],
    b: &[Mersenne31; 32],
    m: &[Mersenne31; 2],
    out: &[Mersenne31; 2],
    aux: &[Mersenne31; 2],
) -> (r: bool)
    ensures
        r <==> spec_sum_constraint(a@, b@, m@, out@, aux@),
{
    let lhs_full = eval_limbs(a).add(eval_bits(b, 32)).add(eval_limbs(m));
    let rhs_full = eval_limbs(out).add(
        aux[0].mul(Mersenne31::new(65536).mul(Mersenne31::new(65536))),
    );
    let lhs_low = a[0].add(eval_bits(b, 16)).add(m[0]);
    let rhs_low = out[0].add(aux[1].mul(Mersenne31::new(65536)));
    proof {
        assert(fmul(aux@[0].val(), fmul(65536, 65536)) == fmul(aux@[0].val(), 65536int * 65536)) by {
            vstd::arithmetic::div_mod::lemma_mul_mod_noop_general(
                aux@[0].val(),
                65536int * 65536,
                crate::field::P as int,
            );
        };
    }
    let full_ok = lhs_full.as_canonical_u32() == rhs_full.as_canonical_u32();
    let low_ok = lhs_low.as_canonical_u32() == rhs_low.as_canonical_u32();
    full_ok && low_ok
}

} // verus!
