//! The Poseidon2 permutation over Mersenne-31: external rounds with an
//! MDS-light circulant layer built from a 4x4 block, and internal rounds
//! with a `1 + diag(v)` layer.

use vstd::prelude::*;
use crate::field::{fadd, fmul, fpow, Mersenne31, P};
use crate::matrix::seq_vals;

verus! {

broadcast use crate::field::lemma_val_bound;

/// The state widths the permutation supports.
pub open spec fn supported_width(w: nat) -> bool {
    w == 2 || w == 3 || w == 4 || w == 8 || w == 12 || w == 16 || w == 20 || w == 24
}

/// The 4x4 MDS block `[[2,3,1,1],[1,2,3,1],[1,1,2,3],[3,1,1,2]]`, written
/// as the addition chain the implementation uses.
pub open spec fn m4_block(x0: int, x1: int, x2: int, x3: int) -> Seq<int> {
    let t01 = fadd(x0, x1);
    let t23 = fadd(x2, x3);
    let t0123 = fadd(t01, t23);
    let t01123 = fadd(t0123, x1);
    let t01233 = fadd(t0123, x3);
    seq![
        fadd(t01123, t01),
        fadd(t01123, fadd(x2, x2)),
        fadd(t01233, t23),
        fadd(t01233, fadd(x0, x0)),
    ]
}


/// The addition chain of `m4_block` computes the rows of the matrix
/// `[[2,3,1,1],[1,2,3,1],[1,1,2,3],[3,1,1,2]]`.
pub proof fn lemma_m4_block_rows(x0: int, x1: int, x2: int, x3: int)
    ensures
        m4_block(x0, x1, x2, x3)[0] == (2 * x0 + 3 * x1 + x2 + x3) % (P as int),
        m4_block(x0, x1, x2, x3)[1] == (x0 + 2 * x1 + 3 * x2 + x3) % (P as int),
        m4_block(x0, x1, x2, x3)[2] == (x0 + x1 + 2 * x2 + 3 * x3) % (P as int),
        m4_block(x0, x1, x2, x3)[3] == (3 * x0 + x1 + x2 + 2 * x3) % (P as int),
{
    let p = P as int;
    let t01 = fadd(x0, x1);
    let t23 = fadd(x2, x3);
    let t0123 = fadd(t01, t23);
    let t01123 = fadd(t0123, x1);
    let t01233 = fadd(t0123, x3);
    vstd::arithmetic::div_mod::lemma_add_mod_noop(x0 + x1, x2 + x3, p);
    assert(t0123 == (x0 + x1 + x2 + x3) % p);
    vstd::arithmetic::div_mod::lemma_add_mod_noop(x0 + x1 + x2 + x3, x1, p);
    assert(t01123 == (x0 + 2 * x1 + x2 + x3) % p);
    vstd::arithmetic::div_mod::lemma_add_mod_noop(x0 + x1 + x2 + x3, x3, p);
    assert(t01233 == (x0 + x1 + x2 + 2 * x3) % p);
    vstd::arithmetic::div_mod::lemma_add_mod_noop(x0 + 2 * x1 + x2 + x3, x0 + x1, p);
    assert(fadd(t01123, t01) == (2 * x0 + 3 * x1 + x2 + x3) % p);
    vstd::arithmetic::div_mod::lemma_add_mod_noop(x2, x2, p);
    vstd::arithmetic::div_mod::lemma_add_mod_noop(x0 + 2 * x1 + x2 + x3, 2 * x2, p);
    assert(fadd(t01123, fadd(x2, x2)) == (x0 + 2 * x1 + 3 * x2 + x3) % p);
    vstd::arithmetic::div_mod::lemma_add_mod_noop(x0 + x1 + x2 + 2 * x3, x2 + x3, p);
    assert(fadd(t01233, t23) == (x0 + x1 + 2 * x2 + 3 * x3) % p);
    vstd::arithmetic::div_mod::lemma_add_mod_noop(x0, x0, p);
    vstd::arithmetic::div_mod::lemma_add_mod_noop(x0 + x1 + x2 + 2 * x3, 2 * x0, p);
    assert(fadd(t01233, fadd(x0, x0)) == (3 * x0 + x1 + x2 + 2 * x3) % p);
}

/// The M4 block transform applied to every 4-element chunk.
pub open spec fn m4_all(s: Seq<int>) -> Seq<int> {
    Seq::new(
        s.len(),
        |i: int| m4_block(s[4 * (i / 4)], s[4 * (i / 4) + 1], s[4 * (i / 4) + 2], s[4 * (i / 4) + 3])[
            i % 4
        ],
    )
}

/// The sum of entries at position `j` of the first `blocks` chunks.
pub open spec fn chunk_col_sum(s: Seq<int>, j: int, blocks: nat) -> int
    decreases blocks,
{
    if blocks == 0 {
        0
    } else {
        fadd(chunk_col_sum(s, j, (blocks - 1) as nat), s[4 * ((blocks - 1) as int) + j])
    }
}

/// The sum of the first `n` entries.
pub open spec fn seq_sum(s: Seq<int>, n: nat) -> int
    decreases n,
{
    if n == 0 {
        0
    } else {
        fadd(seq_sum(s, (n - 1) as nat), s[(n - 1) as int])
    }
}

/// The external (MDS-light) linear layer: the M4 circulant for widths
/// divisible by four, and the `1 + all-ones` forms for widths two and
/// three.
pub open spec fn spec_external_layer(s: Seq<int>) -> Seq<int> {
    if s.len() == 2 || s.len() == 3 {
        Seq::new(s.len(), |i: int| fadd(s[i], seq_sum(s, s.len())))
    } else {
        let m = m4_all(s);
        Seq::new(s.len(), |i: int| fadd(m[i], chunk_col_sum(m, i % 4, s.len() / 4)))
    }
}

/// The internal linear layer `1 + diag(v)`: every entry becomes the state
/// sum plus its diagonal multiple.
pub open spec fn spec_internal_layer(s: Seq<int>, diag: Seq<int>) -> Seq<int> {
    Seq::new(s.len(), |i: int| fadd(seq_sum(s, s.len()), fmul(diag[i], s[i])))
}

/// Round constants added to the whole state.
pub open spec fn spec_add_rc(s: Seq<int>, rc: Seq<int>) -> Seq<int> {
    Seq::new(s.len(), |i: int| fadd(s[i], rc[i]))
}

/// The S-box applied to the whole state.
pub open spec fn spec_sbox_all(s: Seq<int>, d: nat) -> Seq<int> {
    Seq::new(s.len(), |i: int| fpow(s[i], d))
}

/// One external round: add constants, S-box everywhere, external layer.
pub open spec fn spec_external_round(s: Seq<int>, rc: Seq<int>, d: nat) -> Seq<int> {
    spec_external_layer(spec_sbox_all(spec_add_rc(s, rc), d))
}

/// One internal round: add a constant to entry 0, S-box entry 0, internal
/// layer.
pub open spec fn spec_internal_round(s: Seq<int>, rc0: int, diag: Seq<int>, d: nat) -> Seq<int> {
    spec_internal_layer(s.update(0, fpow(fadd(s[0], rc0), d)), diag)
}

/// A run of external rounds.
pub open spec fn spec_external_rounds(s: Seq<int>, rcs: Seq<Seq<int>>, d: nat) -> Seq<int>
    decreases rcs.len(),
{
    if rcs.len() == 0 {
        s
    } else {
        spec_external_rounds(spec_external_round(s, rcs.first(), d), rcs.drop_first(), d)
    }
}

/// A run of internal rounds.
pub open spec fn spec_internal_rounds(s: Seq<int>, rcs: Seq<int>, diag: Seq<int>, d: nat) -> Seq<
    int,
>
    decreases rcs.len(),
{
    if rcs.len() == 0 {
        s
    } else {
        spec_internal_rounds(spec_internal_round(s, rcs.first(), diag, d), rcs.drop_first(), diag, d)
    }
}

/// The whole permutation: initial external layer, the first half of the
/// external rounds, the internal rounds, the second half of the external
/// rounds.
pub open spec fn spec_poseidon2(
    s: Seq<int>,
    ext_rcs: Seq<Seq<int>>,
    int_rcs: Seq<int>,
    diag: Seq<int>,
    d: nat,
) -> Seq<int> {
    let half = ext_rcs.len() / 2;
    let after_init = spec_external_layer(s);
    let after_first = spec_external_rounds(after_init, ext_rcs.subrange(0, half as int), d);
    let after_internal = spec_internal_rounds(after_first, int_rcs, diag, d);
    spec_external_rounds(after_internal, ext_rcs.subrange(half as int, ext_rcs.len() as int), d)
}

/// Powers are canonical residues.
proof fn lemma_fpow_canon(a: int, e: nat)
    ensures
        0 <= fpow(a, e) < P,
    decreases e,
{
    if e > 0 {
        lemma_fpow_canon(a, (e - 1) as nat);
    }
}

/// Powers multiply by adding exponents.
proof fn lemma_fpow_add(a: int, e1: nat, e2: nat)
    requires
        0 <= a < P,
    ensures
        fmul(fpow(a, e1), fpow(a, e2)) == fpow(a, (e1 + e2) as nat),
    decreases e2,
{
    let p = P as int;
    lemma_fpow_canon(a, e1);
    if e2 == 0 {
        vstd::arithmetic::div_mod::lemma_small_mod(fpow(a, e1) as nat, P as nat);
    } else {
        lemma_fpow_add(a, e1, (e2 - 1) as nat);
        let f1 = fpow(a, e1);
        let f2p = fpow(a, (e2 - 1) as nat);
        lemma_fpow_canon(a, (e2 - 1) as nat);
        // fmul(f1, (f2p * a) % p) == ((f1 * f2p) % p * a) % p
        vstd::arithmetic::div_mod::lemma_mul_mod_noop_general(f1, f2p * a, p);
        assert(f1 * (f2p * a) == (f1 * f2p) * a) by (nonlinear_arith);
        vstd::arithmetic::div_mod::lemma_mul_mod_noop_general(f1 * f2p, a, p);
    }
}

/// `x^D` for the small S-box exponents, by explicit squarings.
pub fn exp_small<const D: u64>(x: Mersenne31) -> (r: Mersenne31)
    requires
        D == 3 || D == 5 || D == 7,
    ensures
        r.val() == fpow(x.val(), D as nat),
{
    proof {
        reveal_with_fuel(fpow, 3);
        assert(fpow(x.val(), 1) == (1 * x.val()) % (P as int));
        vstd::arithmetic::div_mod::lemma_small_mod(x.val() as nat, P as nat);
        assert(fpow(x.val(), 1) == x.val());
        lemma_fpow_add(x.val(), 1, 1);
        lemma_fpow_add(x.val(), 2, 2);
        lemma_fpow_add(x.val(), 2, 1);
        lemma_fpow_add(x.val(), 4, 1);
        lemma_fpow_add(x.val(), 4, 2);
        lemma_fpow_add(x.val(), 6, 1);
    }
    let x2 = x.square();
    if D == 3 {
        x2.mul(x)
    } else if D == 5 {
        x2.square().mul(x)
    } else {
        x2.square().mul(x2).mul(x)
    }
}

/// The Poseidon2 permutation over Mersenne-31 with a compile-time state
/// width and S-box exponent.
#[derive(Clone, Debug)]
pub struct Poseidon2<const WIDTH: usize, const D: u64> {
    rounds_f: usize,
    external_constants: Vec<Vec<Mersenne31>>,
    rounds_p: usize,
    internal_constants: Vec<Mersenne31>,
    internal_diag: Vec<Mersenne31>,
}

impl<const WIDTH: usize, const D: u64> Poseidon2<WIDTH, D> {
    pub closed spec fn wf(self) -> bool {
        &&& supported_width(WIDTH as nat)
        &&& (D == 3 || D == 5 || D == 7)
        &&& self.rounds_f % 2 == 0
        &&& self.external_constants@.len() == self.rounds_f
        &&& forall|r: int|
            0 <= r < self.rounds_f ==> (#[trigger] self.external_constants@[r])@.len() == WIDTH
        &&& self.internal_constants@.len() == self.rounds_p
        &&& self.internal_diag@.len() == WIDTH
    }

    /// The number of external rounds.
    pub closed spec fn spec_rounds_f(self) -> int {
        self.rounds_f as int
    }

    /// The number of internal rounds.
    pub closed spec fn spec_rounds_p(self) -> int {
        self.rounds_p as int
    }

    /// The external round constants, as reduced sequences.
    pub closed spec fn spec_ext_rcs(self) -> Seq<Seq<int>> {
        Seq::new(self.external_constants@.len(), |r: int| seq_vals(self.external_constants@[r]@))
    }

    /// The internal round constants, as reduced values.
    pub closed spec fn spec_int_rcs(self) -> Seq<int> {
        seq_vals(self.internal_constants@)
    }

    /// The internal diagonal, as reduced values.
    pub closed spec fn spec_diag(self) -> Seq<int> {
        seq_vals(self.internal_diag@)
    }

    /// Create a new Poseidon2 configuration from explicit round constants
    /// and the internal diagonal.
    pub fn new(
        rounds_f: usize,
        external_constants: Vec<Vec<Mersenne31>>,
        rounds_p: usize,
        internal_constants: Vec<Mersenne31>,
        internal_diag: Vec<Mersenne31>,
    ) -> (r: Self)
        requires
            supported_width(WIDTH as nat),
            D == 3 || D == 5 || D == 7,
            rounds_f % 2 == 0,
            external_constants@.len() == rounds_f,
            forall|q: int|
                0 <= q < rounds_f ==> (#[trigger] external_constants@[q])@.len() == WIDTH,
            internal_constants@.len() == rounds_p,
            internal_diag@.len() == WIDTH,
        ensures
            r.wf(),
            r.spec_rounds_f() == rounds_f,
            r.spec_rounds_p() == rounds_p,
            r.spec_ext_rcs() == Seq::new(
                external_constants@.len(),
                |q: int| seq_vals(external_constants@[q]@),
            ),
            r.spec_int_rcs() == seq_vals(internal_constants@),
            r.spec_diag() == seq_vals(internal_diag@),
    {
        Poseidon2 { rounds_f, external_constants, rounds_p, internal_constants, internal_diag }
    }

    /// The number of external rounds.
    pub fn rounds_f(&self) -> (r: usize)
        ensures
            r == self.spec_rounds_f(),
    {
        self.rounds_f
    }

    /// The number of internal rounds.
    pub fn rounds_p(&self) -> (r: usize)
        ensures
            r == self.spec_rounds_p(),
    {
        self.rounds_p
    }
}

// ---------------------------------------------------------------------------
// Executable layers.
// ---------------------------------------------------------------------------

/// Add round constants to the whole state.
fn add_rc(state: &mut Vec<Mersenne31>, rc: &Vec<Mersenne31>)
    requires
        old(state)@.len() == rc@.len(),
    ensures
        final(state)@.len() == old(state)@.len(),
        seq_vals(final(state)@) == spec_add_rc(seq_vals(old(state)@), seq_vals(rc@)),
{
    let ghost origm = old(state)@;
    let ghost orig = seq_vals(old(state)@);
    let n = state.len();
    let mut i: usize = 0;
    while i < n
        invariant
            0 <= i <= n,
            state@.len() == n,
            rc@.len() == n,
            orig.len() == n,
            orig == seq_vals(origm),
            origm.len() == n,
            forall|q: int| i <= q < n ==> state@[q] == origm[q],
            forall|q: int|
                0 <= q < i ==> #[trigger] state@[q].val() == fadd(orig[q], seq_vals(rc@)[q]),
        decreases n - i,
    {
        let v = state[i].add(rc[i]);
        state.set(i, v);
        i = i + 1;
    }
    proof {
        assert(seq_vals(state@) =~= spec_add_rc(orig, seq_vals(rc@)));
    }
}

/// Apply the S-box to the whole state.
fn sbox_all<const D: u64>(state: &mut Vec<Mersenne31>)
    requires
        D == 3 || D == 5 || D == 7,
    ensures
        final(state)@.len() == old(state)@.len(),
        seq_vals(final(state)@) == spec_sbox_all(seq_vals(old(state)@), D as nat),
{
    let ghost origm = old(state)@;
    let ghost orig = seq_vals(old(state)@);
    let n = state.len();
    let mut i: usize = 0;
    while i < n
        invariant
            0 <= i <= n,
            state@.len() == n,
            orig.len() == n,
            orig == seq_vals(origm),
            origm.len() == n,
            D == 3 || D == 5 || D == 7,
            forall|q: int| i <= q < n ==> state@[q] == origm[q],
            forall|q: int| 0 <= q < i ==> #[trigger] state@[q].val() == fpow(orig[q], D as nat),
        decreases n - i,
    {
        let v = exp_small::<D>(state[i]);
        state.set(i, v);
        i = i + 1;
    }
    proof {
        assert(seq_vals(state@) =~= spec_sbox_all(orig, D as nat));
    }
}

/// The external MDS-light linear layer.
#[verifier::rlimit(100)]
fn external_layer(state: &mut Vec<Mersenne31>)
    requires
        supported_width(old(state)@.len()),
    ensures
        final(state)@.len() == old(state)@.len(),
        seq_vals(final(state)@) == spec_external_layer(seq_vals(old(state)@)),
{
    let ghost origm = old(state)@;
    let ghost orig = seq_vals(old(state)@);
    let n = state.len();
    if n == 2 || n == 3 {
        let sum = if n == 2 {
            state[0].add(state[1])
        } else {
            state[0].add(state[1]).add(state[2])
        };
        proof {
            reveal_with_fuel(seq_sum, 5);
            assert(orig[0] == origm[0].val() && orig[1] == origm[1].val());
            assert(fadd(0, orig[0]) == orig[0]);
            assert(sum.val() == seq_sum(orig, n as nat));
        }
        let mut i: usize = 0;
        while i < n
            invariant
                0 <= i <= n,
                state@.len() == n,
                orig.len() == n,
                sum.val() == seq_sum(orig, n as nat),
                orig == seq_vals(origm),
                origm.len() == n,
                forall|q: int| i <= q < n ==> state@[q] == origm[q],
                forall|q: int|
                    0 <= q < i ==> #[trigger] state@[q].val() == fadd(orig[q], seq_sum(
                        orig,
                        n as nat,
                    )),
            decreases n - i,
        {
            let v = state[i].add(sum);
            state.set(i, v);
            i = i + 1;
        }
        proof {
            assert(seq_vals(state@) =~= spec_external_layer(orig));
        }
    } else {
        let nblocks = n / 4;
        proof {
            assert(n == 4 * nblocks);
        }
        // Stage 1: the M4 block transform.
        let mut b: usize = 0;
        while b < nblocks
            invariant
                0 <= b <= nblocks,
                state@.len() == n,
                orig.len() == n,
                n == 4 * nblocks,
                orig == seq_vals(origm),
                origm.len() == n,
                forall|q: int| 4 * b <= q < n ==> state@[q] == origm[q],
                forall|q: int| 0 <= q < 4 * b ==> #[trigger] state@[q].val() == m4_all(orig)[q],
        decreases nblocks - b,
        {
            let x0 = state[4 * b];
            let x1 = state[4 * b + 1];
            let x2 = state[4 * b + 2];
            let x3 = state[4 * b + 3];
            let t01 = x0.add(x1);
            let t23 = x2.add(x3);
            let t0123 = t01.add(t23);
            let t01123 = t0123.add(x1);
            let t01233 = t0123.add(x3);
            state.set(4 * b, t01123.add(t01));
            state.set(4 * b + 1, t01123.add(x2.add(x2)));
            state.set(4 * b + 2, t01233.add(t23));
            state.set(4 * b + 3, t01233.add(x0.add(x0)));
            proof {
                assert forall|q: int| 0 <= q < 4 * (b + 1) implies #[trigger] state@[q].val()
                    == m4_all(orig)[q] by {
                    if q >= 4 * b {
                        vstd::arithmetic::div_mod::lemma_fundamental_div_mod_converse(
                            q,
                            4,
                            b as int,
                            q - 4 * b,
                        );
                    }
                }
            }
            b = b + 1;
        }
        proof {
            assert(seq_vals(state@) =~= m4_all(orig));
        }
        let ghost m = m4_all(orig);
        let ghost snap = state@;
        // Stage 2: the column sums across blocks.
        let mut sums: Vec<Mersenne31> = Vec::new();
        let mut j: usize = 0;
        while j < 4
            invariant
                0 <= j <= 4,
                state@ == snap,
                state@.len() == n,
                seq_vals(snap) == m,
                m.len() == n,
                n == 4 * nblocks,
                sums@.len() == j,
                forall|q: int|
                    0 <= q < j ==> #[trigger] sums@[q].val() == chunk_col_sum(
                        m,
                        q,
                        nblocks as nat,
                    ),
            decreases 4 - j,
        {
            let mut acc = Mersenne31::zero();
            let mut c: usize = 0;
            while c < nblocks
                invariant
                    0 <= c <= nblocks,
                    0 <= j < 4,
                    state@ == snap,
                    state@.len() == n,
                    seq_vals(snap) == m,
                    m.len() == n,
                    n == 4 * nblocks,
                    sums@.len() == j,
                    forall|q: int|
                        0 <= q < j ==> #[trigger] sums@[q].val() == chunk_col_sum(
                            m,
                            q,
                            nblocks as nat,
                        ),
                    acc.val() == chunk_col_sum(m, j as int, c as nat),
                decreases nblocks - c,
            {
                acc = acc.add(state[4 * c + j]);
                c = c + 1;
            }
            sums.push(acc);
            j = j + 1;
        }
        // Stage 3: add the sums.
        let mut i: usize = 0;
        while i < n
            invariant
                0 <= i <= n,
                state@.len() == n,
                m.len() == n,
                n == 4 * nblocks,
                sums@.len() == 4,
                forall|q: int|
                    0 <= q < 4 ==> #[trigger] sums@[q].val() == chunk_col_sum(
                        m,
                        q,
                        nblocks as nat,
                    ),
                forall|q: int| i <= q < n ==> #[trigger] state@[q].val() == m[q],
                forall|q: int|
                    0 <= q < i ==> #[trigger] state@[q].val() == fadd(m[q], chunk_col_sum(
                        m,
                        q % 4,
                        nblocks as nat,
                    )),
            decreases n - i,
        {
            let v = state[i].add(sums[i % 4]);
            state.set(i, v);
            i = i + 1;
        }
        proof {
            assert(seq_vals(state@) =~= spec_external_layer(orig)) by {
                assert forall|q: int| 0 <= q < n implies seq_vals(state@)[q]
                    == spec_external_layer(orig)[q] by {
                    assert(orig.len() / 4 == nblocks) by {
                        vstd::arithmetic::div_mod::lemma_fundamental_div_mod_converse(
                            n as int,
                            4,
                            nblocks as int,
                            0,
                        );
                    };
                }
            };
        }
    }
}

/// The internal `1 + diag(v)` linear layer.
fn internal_layer(state: &mut Vec<Mersenne31>, diag: &Vec<Mersenne31>)
    requires
        old(state)@.len() == diag@.len(),
    ensures
        final(state)@.len() == old(state)@.len(),
        seq_vals(final(state)@) == spec_internal_layer(seq_vals(old(state)@), seq_vals(diag@)),
{
    let ghost origm = old(state)@;
    let ghost orig = seq_vals(old(state)@);
    let n = state.len();
    let mut sum = Mersenne31::zero();
    let mut c: usize = 0;
    while c < n
        invariant
            0 <= c <= n,
            state@.len() == n,
            orig.len() == n,
            orig == seq_vals(origm),
            origm.len() == n,
            state@ == origm,
            sum.val() == seq_sum(orig, c as nat),
        decreases n - c,
    {
        sum = sum.add(state[c]);
        c = c + 1;
    }
    let mut i: usize = 0;
    while i < n
        invariant
            0 <= i <= n,
            state@.len() == n,
            orig.len() == n,
            diag@.len() == n,
            sum.val() == seq_sum(orig, n as nat),
            orig == seq_vals(origm),
            origm.len() == n,
            forall|q: int| i <= q < n ==> state@[q] == origm[q],
            forall|q: int|
                0 <= q < i ==> #[trigger] state@[q].val() == fadd(seq_sum(orig, n as nat), fmul(
                    seq_vals(diag@)[q],
                    orig[q],
                )),
        decreases n - i,
    {
        let v = sum.add(diag[i].mul(state[i]));
        state.set(i, v);
        i = i + 1;
    }
    proof {
        assert(seq_vals(state@) =~= spec_internal_layer(orig, seq_vals(diag@)));
    }
}

impl<const WIDTH: usize, const D: u64> Poseidon2<WIDTH, D> {
    /// Apply the permutation in place.
    pub fn permute_mut(&self, state: &mut Vec<Mersenne31>)
        requires
            self.wf(),
            old(state)@.len() == WIDTH,
        ensures
            final(state)@.len() == WIDTH,
            seq_vals(final(state)@) == spec_poseidon2(
                seq_vals(old(state)@),
                self.spec_ext_rcs(),
                self.spec_int_rcs(),
                self.spec_diag(),
                D as nat,
            ),
    {
        let ghost rcs = self.spec_ext_rcs();
        let ghost ircs = self.spec_int_rcs();
        let ghost diag = self.spec_diag();
        // The initial external linear layer.
        external_layer(state);
        let ghost s1 = seq_vals(state@);
        let half = self.rounds_f / 2;
        // The first half of the external rounds.
        let mut r: usize = 0;
        while r < half
            invariant
                0 <= r <= half,
                self.wf(),
                half == self.spec_rounds_f() / 2,
                2 * half == self.spec_rounds_f(),
                rcs == self.spec_ext_rcs(),
                state@.len() == WIDTH,
                supported_width(WIDTH as nat),
                D == 3 || D == 5 || D == 7,
                spec_external_rounds(seq_vals(state@), rcs.subrange(r as int, half as int), D as nat)
                    == spec_external_rounds(s1, rcs.subrange(0, half as int), D as nat),
            decreases half - r,
        {
            add_rc(state, &self.external_constants[r]);
            sbox_all::<D>(state);
            external_layer(state);
            proof {
                assert(rcs.subrange(r as int, half as int).first() == rcs[r as int]);
                assert(rcs.subrange(r as int, half as int).drop_first() =~= rcs.subrange(
                    r as int + 1,
                    half as int,
                ));
                assert(seq_vals(self.external_constants@[r as int]@) == rcs[r as int]);
            }
            r = r + 1;
        }
        proof {
            assert(rcs.subrange(half as int, half as int) =~= Seq::<Seq<int>>::empty());
        }
        let ghost s2 = seq_vals(state@);
        // The internal rounds.
        let rp = self.rounds_p;
        proof {
            assert(ircs.subrange(0, rp as int) =~= ircs);
        }
        let mut q: usize = 0;
        while q < rp
            invariant
                0 <= q <= rp,
                self.wf(),
                rp == self.spec_rounds_p(),
                ircs == self.spec_int_rcs(),
                diag == self.spec_diag(),
                state@.len() == WIDTH,
                WIDTH >= 2,
                supported_width(WIDTH as nat),
                D == 3 || D == 5 || D == 7,
                spec_internal_rounds(
                    seq_vals(state@),
                    ircs.subrange(q as int, rp as int),
                    diag,
                    D as nat,
                ) == spec_internal_rounds(s2, ircs, diag, D as nat),
            decreases rp - q,
        {
            let t = exp_small::<D>(state[0].add(self.internal_constants[q]));
            let ghost before = seq_vals(state@);
            state.set(0, t);
            proof {
                assert(seq_vals(state@) =~= before.update(
                    0,
                    fpow(fadd(before[0], ircs[q as int]), D as nat),
                ));
            }
            internal_layer(state, &self.internal_diag);
            proof {
                assert(ircs.subrange(q as int, rp as int).first() == ircs[q as int]);
                assert(ircs.subrange(q as int, rp as int).drop_first() =~= ircs.subrange(
                    q as int + 1,
                    rp as int,
                ));
            }
            q = q + 1;
        }
        proof {
            assert(ircs.subrange(rp as int, rp as int) =~= Seq::<int>::empty());
        }
        let ghost s3 = seq_vals(state@);
        // The second half of the external rounds.
        let rf = self.rounds_f;
        let mut r2: usize = half;
        while r2 < rf
            invariant
                half <= r2 <= rf,
                self.wf(),
                rf == self.spec_rounds_f(),
                half == self.spec_rounds_f() / 2,
                rcs == self.spec_ext_rcs(),
                state@.len() == WIDTH,
                supported_width(WIDTH as nat),
                D == 3 || D == 5 || D == 7,
                spec_external_rounds(seq_vals(state@), rcs.subrange(r2 as int, rf as int), D as nat)
                    == spec_external_rounds(s3, rcs.subrange(half as int, rf as int), D as nat),
            decreases rf - r2,
        {
            add_rc(state, &self.external_constants[r2]);
            sbox_all::<D>(state);
            external_layer(state);
            proof {
                assert(rcs.subrange(r2 as int, rf as int).first() == rcs[r2 as int]);
                assert(rcs.subrange(r2 as int, rf as int).drop_first() =~= rcs.subrange(
                    r2 as int + 1,
                    rf as int,
                ));
                assert(seq_vals(self.external_constants@[r2 as int]@) == rcs[r2 as int]);
            }
            r2 = r2 + 1;
        }
        proof {
            assert(rcs.subrange(rf as int, rf as int) =~= Seq::<Seq<int>>::empty());
            assert(rcs.subrange(0, rcs.len() as int) =~= rcs);
        }
    }
}

// ---------------------------------------------------------------------------
// Construction from a random stream.
// ---------------------------------------------------------------------------

#[verifier::external_type_specification]
#[verifier::external_body]
pub struct ExStdRng(rand::rngs::StdRng);

/// Relies on rand's `RngCore::next_u32` for `StdRng`: one pseudo-random
/// word.  Nothing is promised of the value.
#[verifier::external_body]
fn draw_u32(rng: &mut rand::rngs::StdRng) -> u32 {
    rand::RngCore::next_u32(rng)
}

/// A pseudo-random field element: a random word reduced into the field.
fn random_field(rng: &mut rand::rngs::StdRng) -> Mersenne31 {
    Mersenne31::new(draw_u32(rng))
}

impl<const WIDTH: usize, const D: u64> Poseidon2<WIDTH, D> {
    /// Create a configuration with pseudo-random round constants drawn
    /// from the given generator.
    pub fn new_from_rng(
        rounds_f: usize,
        rounds_p: usize,
        internal_diag: Vec<Mersenne31>,
        rng: &mut rand::rngs::StdRng,
    ) -> (r: Self)
        requires
            supported_width(WIDTH as nat),
            D == 3 || D == 5 || D == 7,
            rounds_f % 2 == 0,
            internal_diag@.len() == WIDTH,
        ensures
            r.wf(),
            r.spec_rounds_f() == rounds_f,
            r.spec_rounds_p() == rounds_p,
            r.spec_diag() == seq_vals(internal_diag@),
    {
        let mut external_constants: Vec<Vec<Mersenne31>> = Vec::new();
        let mut i: usize = 0;
        while i < rounds_f
            invariant
                0 <= i <= rounds_f,
                external_constants@.len() == i,
                forall|q: int|
                    0 <= q < i ==> (#[trigger] external_constants@[q])@.len() == WIDTH,
            decreases rounds_f - i,
        {
            let mut row: Vec<Mersenne31> = Vec::new();
            let mut j: usize = 0;
            while j < WIDTH
                invariant
                    0 <= j <= WIDTH,
                    row@.len() == j,
                decreases WIDTH - j,
            {
                row.push(random_field(rng));
                j = j + 1;
            }
            external_constants.push(row);
            i = i + 1;
        }
        let mut internal_constants: Vec<Mersenne31> = Vec::new();
        let mut k: usize = 0;
        while k < rounds_p
            invariant
                0 <= k <= rounds_p,
                internal_constants@.len() == k,
            decreases rounds_p - k,
        {
            internal_constants.push(random_field(rng));
            k = k + 1;
        }
        Self::new(rounds_f, external_constants, rounds_p, internal_constants, internal_diag)
    }
}


} // verus!
