//! The FRI verifier: a multi-round folding argument checked against a
//! Fiat-Shamir challenger and a batched commitment scheme.  The challenger,
//! the commitment scheme and the folding rule are capability interfaces
//! supplied by the caller, as the protocol leaves them to its users; each
//! interface method carries a specification function, so that the
//! verifier's own contract can state the whole protocol: which transcript
//! draws are made, what is handed to each opening check, how the sibling
//! pair is assembled, how the fold chains, and which error each failure
//! yields.

use vstd::prelude::*;
use vstd::arithmetic::power2::pow2;
use crate::field::Mersenne31;
use crate::matrix::seq_vals;

verus! {

broadcast use crate::field::lemma_val_bound;

/// The ways a FRI proof can fail to verify.
#[derive(Clone, Copy, Debug, PartialEq, Eq, Structural)]
pub enum FriError {
    InvalidProofShape,
    CommitPhaseMmcsError,
    FinalPolyMismatch,
    InvalidPowWitness,
}

/// One commit-phase opening: the folding sibling and its opening proof.
#[derive(Clone, Debug)]
pub struct CommitPhaseProofStep {
    pub sibling_value: Mersenne31,
    pub opening_proof: Vec<Vec<Mersenne31>>,
}

/// The per-query part of a FRI proof: an opaque input-layer proof plus one
/// opening per commit-phase layer.
#[derive(Clone, Debug)]
pub struct QueryProof {
    pub input_proof: Vec<Mersenne31>,
    pub commit_phase_openings: Vec<CommitPhaseProofStep>,
}

/// A complete FRI proof.
#[derive(Clone, Debug)]
pub struct FriProof {
    pub commit_phase_commits: Vec<Vec<Mersenne31>>,
    pub query_proofs: Vec<QueryProof>,
    pub final_poly: Mersenne31,
    pub pow_witness: u64,
}

/// The rows of a sequence of element vectors, as reduced values.
pub open spec fn rows_vals(s: Seq<Vec<Mersenne31>>) -> Seq<Seq<int>> {
    Seq::new(s.len(), |i: int| seq_vals(s[i]@))
}

/// Reduced openings as (height, value) pairs of plain values.
pub open spec fn ro_vals(s: Seq<(usize, Mersenne31)>) -> Seq<(usize, int)> {
    Seq::new(s.len(), |i: int| (s[i].0, s[i].1.val()))
}

/// The Fiat-Shamir transcript the verifier drives.  An implementation is a
/// deterministic function of its observation history; the specification
/// functions name the state transition and drawn value of each operation,
/// and each method promises to realise them.  The specification functions
/// default to an unspecified value, so that implementations outside the
/// verifier's view need not mention them; a verified implementation
/// overrides them with its own meaning.
pub trait FriChallenger: Sized {
    /// The state after absorbing a commitment.
    open spec fn spec_after_observe(self, comm: Seq<int>) -> Self {
        vstd::pervasive::arbitrary()
    }

    /// The state after drawing a field element, and the element drawn.
    open spec fn spec_sample(self) -> (Self, int) {
        vstd::pervasive::arbitrary()
    }

    /// The state after drawing an index of `bits` bits, and the index.
    open spec fn spec_sample_bits(self, bits: nat) -> (Self, nat) {
        vstd::pervasive::arbitrary()
    }

    /// The state after checking a grinding witness, and the verdict.
    open spec fn spec_check_witness(self, bits: nat, witness: u64) -> (Self, bool) {
        vstd::pervasive::arbitrary()
    }

    /// Absorb a commitment.
    fn observe_commitment(&mut self, comm: &Vec<Mersenne31>)
        ensures
            *final(self) == (*old(self)).spec_after_observe(seq_vals(comm@)),
    ;

    /// Draw a field element.
    fn sample(&mut self) -> (r: Mersenne31)
        ensures
            ({
                let next = (*old(self)).spec_sample();
                *final(self) == next.0 && r.val() == next.1
            }),
    ;

    /// Draw `bits` uniform bits as an index.
    fn sample_bits(&mut self, bits: usize) -> (r: usize)
        requires
            bits <= 30,
        ensures
            ({
                let next = (*old(self)).spec_sample_bits(bits as nat);
                *final(self) == next.0 && r == next.1 && r < pow2(bits as nat)
            }),
    ;

    /// Check a proof-of-work witness against the transcript.
    fn check_witness(&mut self, bits: usize, witness: u64) -> (r: bool)
        ensures
            ({
                let next = (*old(self)).spec_check_witness(bits as nat, witness);
                *final(self) == next.0 && r == next.1
            }),
    ;
}

/// The batched commitment scheme.  The FRI verifier only ever opens a
/// single matrix of width 2 at a time; the specification function names
/// the scheme's verdict on given arguments, and `verify_batch` promises to
/// return it.
pub trait FriMmcs {
    /// Whether the given opening verifies against the commitment.  The
    /// default is an unspecified verdict; a verified implementation
    /// overrides it with its own meaning.
    open spec fn spec_verify_batch(
        &self,
        comm: Seq<int>,
        width: nat,
        height: nat,
        index: nat,
        row: Seq<int>,
        proof: Seq<Seq<int>>,
    ) -> bool {
        vstd::pervasive::arbitrary()
    }

    /// Verify an opening of row `index` of a committed matrix of the given
    /// dimensions.
    fn verify_batch(
        &self,
        comm: &Vec<Mersenne31>,
        width: usize,
        height: usize,
        index: usize,
        opened_row: &Vec<Mersenne31>,
        proof: &Vec<Vec<Mersenne31>>,
    ) -> (r: bool)
        ensures
            r == self.spec_verify_batch(
                seq_vals(comm@),
                width as nat,
                height as nat,
                index as nat,
                seq_vals(opened_row@),
                rows_vals(proof@),
            ),
    ;
}

/// The generic folding rule of the concrete FRI instantiation.
pub trait FriFolding {
    /// How many low-order bits of a sampled index the input layer
    /// consumes.  As with the other interface specification functions,
    /// the default is an unspecified value that a verified implementation
    /// overrides.
    open spec fn spec_extra_bits(&self) -> nat {
        vstd::pervasive::arbitrary()
    }

    /// The folding of a sibling pair.
    open spec fn spec_fold_row(&self, index: nat, log_height: nat, beta: int, e0: int, e1: int) -> int {
        vstd::pervasive::arbitrary()
    }

    /// The reduced openings of the input layer for one query.
    open spec fn spec_open_input(&self, index: nat, input_proof: Seq<int>) -> Seq<(usize, int)> {
        vstd::pervasive::arbitrary()
    }

    fn extra_query_index_bits(&self) -> (r: usize)
        ensures
            r == self.spec_extra_bits(),
            r <= 10,
    ;

    /// One folding step on a sibling pair.
    fn fold_row(
        &self,
        index: usize,
        log_height: usize,
        beta: Mersenne31,
        e0: Mersenne31,
        e1: Mersenne31,
    ) -> (r: Mersenne31)
        ensures
            r.val() == self.spec_fold_row(
                index as nat,
                log_height as nat,
                beta.val(),
                e0.val(),
                e1.val(),
            ),
    ;

    /// Extract the reduced openings of the input layer for one query, in
    /// descending order of `log_height`.
    fn open_input(&self, index: usize, input_proof: &Vec<Mersenne31>) -> (r: Vec<
        (usize, Mersenne31),
    >)
        ensures
            ro_vals(r@) == self.spec_open_input(index as nat, seq_vals(input_proof@)),
    ;
}

/// The verifier's parameters.
pub struct FriConfig<M> {
    pub log_blowup: usize,
    pub num_queries: usize,
    pub proof_of_work_bits: usize,
    pub mmcs: M,
}

// ---------------------------------------------------------------------------
// The protocol, as specification functions.
// ---------------------------------------------------------------------------

/// The commit phase of the transcript: observe each commitment in proof
/// order and draw its folding challenge, before anything else.
pub open spec fn spec_observe_phase<C: FriChallenger>(ch: C, commits: Seq<Seq<int>>, n: nat) -> (
    C,
    Seq<int>,
)
    decreases n,
{
    if n == 0 {
        (ch, Seq::empty())
    } else {
        let prev = spec_observe_phase(ch, commits, (n - 1) as nat);
        let c1 = prev.0.spec_after_observe(commits[n - 1]);
        let s = c1.spec_sample();
        (s.0, prev.1.push(s.1))
    }
}

/// The state of one query's fold after `steps` layers: the running
/// accumulator, the current index, how many reduced openings have been
/// absorbed, and whether every commitment opening so far verified.  Each
/// layer first absorbs a reduced opening whose height matches, then places
/// the accumulator at position `index % 2` of the sibling pair and the
/// claimed sibling at the other position, checks the pair against the
/// layer's commitment at the halved index, and folds.
pub open spec fn spec_query_fold<G: FriFolding, M: FriMmcs>(
    g: &G,
    mmcs: &M,
    start_index: nat,
    betas: Seq<int>,
    commits: Seq<Seq<int>>,
    openings: Seq<CommitPhaseProofStep>,
    ro: Seq<(usize, int)>,
    log_max_height: nat,
    steps: nat,
) -> (int, nat, nat, bool)
    decreases steps,
{
    if steps == 0 {
        (0int, start_index, 0nat, true)
    } else {
        let prev = spec_query_fold(
            g,
            mmcs,
            start_index,
            betas,
            commits,
            openings,
            ro,
            log_max_height,
            (steps - 1) as nat,
        );
        if !prev.3 {
            prev
        } else {
            let lfh = (log_max_height - steps) as nat;
            let absorb = prev.2 < ro.len() && ro[prev.2 as int].0 == lfh + 1;
            let f1 = if absorb {
                crate::field::fadd(prev.0, ro[prev.2 as int].1)
            } else {
                prev.0
            };
            let roi1: nat = if absorb {
                prev.2 + 1
            } else {
                prev.2
            };
            let sib = openings[steps - 1].sibling_value.val();
            let e0 = if prev.1 % 2 == 0 {
                f1
            } else {
                sib
            };
            let e1 = if prev.1 % 2 == 0 {
                sib
            } else {
                f1
            };
            let pair_index = prev.1 / 2;
            let ok = mmcs.spec_verify_batch(
                commits[steps - 1],
                2,
                pow2(lfh),
                pair_index,
                seq![e0, e1],
                rows_vals(openings[steps - 1].opening_proof@),
            );
            if !ok {
                (f1, pair_index, roi1, false)
            } else {
                (
                    g.spec_fold_row(pair_index, lfh, betas[steps - 1], e0, e1),
                    pair_index,
                    roi1,
                    true,
                )
            }
        }
    }
}

/// A failed fold state never changes again.
proof fn lemma_query_fold_stuck<G: FriFolding, M: FriMmcs>(
    g: &G,
    mmcs: &M,
    start_index: nat,
    betas: Seq<int>,
    commits: Seq<Seq<int>>,
    openings: Seq<CommitPhaseProofStep>,
    ro: Seq<(usize, int)>,
    log_max_height: nat,
    s1: nat,
    s2: nat,
)
    requires
        s1 <= s2,
        !spec_query_fold(g, mmcs, start_index, betas, commits, openings, ro, log_max_height, s1).3,
    ensures
        spec_query_fold(g, mmcs, start_index, betas, commits, openings, ro, log_max_height, s2)
            == spec_query_fold(
            g,
            mmcs,
            start_index,
            betas,
            commits,
            openings,
            ro,
            log_max_height,
            s1,
        ),
    decreases s2 - s1,
{
    if s2 > s1 {
        lemma_query_fold_stuck(
            g,
            mmcs,
            start_index,
            betas,
            commits,
            openings,
            ro,
            log_max_height,
            s1,
            (s2 - 1) as nat,
        );
    }
}

/// On a fold in which every opening verified, the index is the start
/// index halved once per layer: after `steps` layers it is
/// `start_index / 2^steps`.  With a start index below
/// `2^log_max_height`, the index after folding one layer per commitment
/// is therefore below `2^log_blowup`.
pub proof fn lemma_query_fold_index<G: FriFolding, M: FriMmcs>(
    g: &G,
    mmcs: &M,
    start_index: nat,
    betas: Seq<int>,
    commits: Seq<Seq<int>>,
    openings: Seq<CommitPhaseProofStep>,
    ro: Seq<(usize, int)>,
    log_max_height: nat,
    steps: nat,
)
    requires
        spec_query_fold(g, mmcs, start_index, betas, commits, openings, ro, log_max_height, steps).3,
    ensures
        spec_query_fold(g, mmcs, start_index, betas, commits, openings, ro, log_max_height, steps).1
            == start_index / pow2(steps),
    decreases steps,
{
    vstd::arithmetic::power2::lemma2_to64();
    if steps == 0 {
        assert(pow2(0) == 1);
    } else {
        let prev = spec_query_fold(
            g,
            mmcs,
            start_index,
            betas,
            commits,
            openings,
            ro,
            log_max_height,
            (steps - 1) as nat,
        );
        assert(prev.3);
        lemma_query_fold_index(
            g,
            mmcs,
            start_index,
            betas,
            commits,
            openings,
            ro,
            log_max_height,
            (steps - 1) as nat,
        );
        vstd::arithmetic::power2::lemma_pow2_unfold(steps);
        vstd::arithmetic::power2::lemma_pow2_pos((steps - 1) as nat);
        vstd::arithmetic::div_mod::lemma_div_denominator(
            start_index as int,
            pow2((steps - 1) as nat) as int,
            2,
        );
    }
}

/// Reduced openings sorted strictly descending in height.
pub open spec fn ro_descending(ro: Seq<(usize, int)>) -> bool {
    forall|i: int, j: int|
        #![trigger ro[i], ro[j]]
        0 <= i < j < ro.len() ==> ro[i].0 > ro[j].0
}

/// Through a successful fold, the absorbed prefix holds exactly the
/// entries whose height has already come up.
proof fn lemma_query_fold_drain_inv<G: FriFolding, M: FriMmcs>(
    g: &G,
    mmcs: &M,
    start_index: nat,
    betas: Seq<int>,
    commits: Seq<Seq<int>>,
    openings: Seq<CommitPhaseProofStep>,
    ro: Seq<(usize, int)>,
    log_max_height: nat,
    n: nat,
)
    requires
        n <= log_max_height,
        spec_query_fold(g, mmcs, start_index, betas, commits, openings, ro, log_max_height, n).3,
        ro_descending(ro),
        forall|j: int| 0 <= j < ro.len() ==> (#[trigger] ro[j]).0 <= log_max_height,
    ensures
        ({
            let st = spec_query_fold(
                g,
                mmcs,
                start_index,
                betas,
                commits,
                openings,
                ro,
                log_max_height,
                n,
            );
            &&& st.2 <= ro.len()
            &&& forall|j: int| 0 <= j < st.2 ==> (#[trigger] ro[j]).0 > log_max_height - n
            &&& (st.2 < ro.len() ==> ro[st.2 as int].0 <= log_max_height - n)
        }),
    decreases n,
{
    if n > 0 {
        let prev = spec_query_fold(
            g,
            mmcs,
            start_index,
            betas,
            commits,
            openings,
            ro,
            log_max_height,
            (n - 1) as nat,
        );
        assert(prev.3);
        lemma_query_fold_drain_inv(
            g,
            mmcs,
            start_index,
            betas,
            commits,
            openings,
            ro,
            log_max_height,
            (n - 1) as nat,
        );
        let lfh = (log_max_height - n) as nat;
        if prev.2 < ro.len() && ro[prev.2 as int].0 == lfh + 1 {
            assert forall|j: int| 0 <= j < prev.2 + 1 implies (#[trigger] ro[j]).0
                > log_max_height - n by {
                if j < prev.2 {
                    assert(ro[j].0 > log_max_height - (n - 1));
                }
            }
        }
    }
}

/// A successful fold of one layer per reduced-opening height consumes
/// every reduced opening: with the openings strictly descending and all
/// heights in the folded range, nothing is left over afterwards.
pub proof fn lemma_query_fold_drains<G: FriFolding, M: FriMmcs>(
    g: &G,
    mmcs: &M,
    start_index: nat,
    betas: Seq<int>,
    commits: Seq<Seq<int>>,
    openings: Seq<CommitPhaseProofStep>,
    ro: Seq<(usize, int)>,
    log_max_height: nat,
    steps: nat,
)
    requires
        steps <= log_max_height,
        spec_query_fold(
            g,
            mmcs,
            start_index,
            betas,
            commits,
            openings,
            ro,
            log_max_height,
            steps,
        ).3,
        ro_descending(ro),
        forall|j: int|
            0 <= j < ro.len() ==> log_max_height - steps < (#[trigger] ro[j]).0
                <= log_max_height,
    ensures
        spec_query_fold(g, mmcs, start_index, betas, commits, openings, ro, log_max_height, steps).2
            == ro.len(),
{
    lemma_query_fold_drain_inv(
        g,
        mmcs,
        start_index,
        betas,
        commits,
        openings,
        ro,
        log_max_height,
        steps,
    );
}

/// The query phase: per query in proof order, draw an index of
/// `log_max_height + extra` bits, open the input layer at it, fold from
/// the shifted index, and stop at the first failure — an opening that does
/// not verify, or a fold that misses the final polynomial.
pub open spec fn spec_query_phase<G: FriFolding, M: FriMmcs, C: FriChallenger>(
    g: &G,
    mmcs: &M,
    ch: C,
    proof: FriProof,
    betas: Seq<int>,
    log_max_height: nat,
    n: nat,
) -> (C, Result<(), FriError>)
    decreases n,
{
    if n == 0 {
        (ch, Ok(()))
    } else {
        let prev = spec_query_phase(g, mmcs, ch, proof, betas, log_max_height, (n - 1) as nat);
        if prev.1 is Err {
            prev
        } else {
            let bits = (log_max_height + g.spec_extra_bits()) as nat;
            let s1 = prev.0.spec_sample_bits(bits);
            let qp = proof.query_proofs@[n - 1];
            let ro = g.spec_open_input(s1.1, seq_vals(qp.input_proof@));
            let steps: nat = if proof.commit_phase_commits@.len()
                < qp.commit_phase_openings@.len() {
                proof.commit_phase_commits@.len()
            } else {
                qp.commit_phase_openings@.len()
            };
            let st = spec_query_fold(
                g,
                mmcs,
                s1.1 / pow2(g.spec_extra_bits()),
                betas,
                rows_vals(proof.commit_phase_commits@),
                qp.commit_phase_openings@,
                ro,
                log_max_height,
                steps,
            );
            if !st.3 {
                (s1.0, Err(FriError::CommitPhaseMmcsError))
            } else if st.0 != proof.final_poly.val() {
                (s1.0, Err(FriError::FinalPolyMismatch))
            } else {
                (s1.0, Ok(()))
            }
        }
    }
}

/// A failed query phase never changes again.
proof fn lemma_query_phase_stuck<G: FriFolding, M: FriMmcs, C: FriChallenger>(
    g: &G,
    mmcs: &M,
    ch: C,
    proof: FriProof,
    betas: Seq<int>,
    log_max_height: nat,
    n1: nat,
    n2: nat,
)
    requires
        n1 <= n2,
        spec_query_phase(g, mmcs, ch, proof, betas, log_max_height, n1).1 is Err,
    ensures
        spec_query_phase(g, mmcs, ch, proof, betas, log_max_height, n2) == spec_query_phase(
            g,
            mmcs,
            ch,
            proof,
            betas,
            log_max_height,
            n1,
        ),
    decreases n2 - n1,
{
    if n2 > n1 {
        lemma_query_phase_stuck(g, mmcs, ch, proof, betas, log_max_height, n1, (n2 - 1) as nat);
    }
}

/// The whole verifier: the commit phase of the transcript, the shape
/// check, the proof-of-work check, then the query phase; the first failure
/// is returned, and `InvalidProofShape` takes precedence over the
/// proof-of-work check.
pub open spec fn spec_verify<G: FriFolding, M: FriMmcs, C: FriChallenger>(
    g: &G,
    config: &FriConfig<M>,
    proof: &FriProof,
    ch: C,
) -> (C, Result<(), FriError>) {
    let ob = spec_observe_phase(
        ch,
        rows_vals(proof.commit_phase_commits@),
        proof.commit_phase_commits@.len(),
    );
    if proof.query_proofs@.len() != config.num_queries {
        (ob.0, Err(FriError::InvalidProofShape))
    } else {
        let pw = ob.0.spec_check_witness(config.proof_of_work_bits as nat, proof.pow_witness);
        if !pw.1 {
            (pw.0, Err(FriError::InvalidPowWitness))
        } else {
            spec_query_phase(
                g,
                &config.mmcs,
                pw.0,
                *proof,
                ob.1,
                (proof.commit_phase_commits@.len() + config.log_blowup) as nat,
                proof.query_proofs@.len(),
            )
        }
    }
}

// ---------------------------------------------------------------------------
// The executable verifier.
// ---------------------------------------------------------------------------

/// Verify one query: fold from the maximum height down, checking each
/// claimed sibling against its commitment and absorbing the reduced
/// openings of matching height on the way.  As many layers are folded as
/// the proof supplies openings for, at most one per commitment; leftover
/// reduced openings are ignored, as the protocol's release builds do.
fn verify_query<G: FriFolding, M: FriMmcs>(
    g: &G,
    config: &FriConfig<M>,
    start_index: usize,
    betas: &Vec<Mersenne31>,
    commits: &Vec<Vec<Mersenne31>>,
    openings: &Vec<CommitPhaseProofStep>,
    reduced_openings: &Vec<(usize, Mersenne31)>,
    log_max_height: usize,
) -> (r: Result<Mersenne31, FriError>)
    requires
        betas@.len() == commits@.len(),
        commits@.len() <= log_max_height,
        log_max_height <= 30,
    ensures
        ({
            let steps: nat = if commits@.len() < openings@.len() {
                commits@.len()
            } else {
                openings@.len()
            };
            let st = spec_query_fold(
                g,
                &config.mmcs,
                start_index as nat,
                seq_vals(betas@),
                rows_vals(commits@),
                openings@,
                ro_vals(reduced_openings@),
                log_max_height as nat,
                steps,
            );
            &&& (st.3 <==> r is Ok)
            &&& (st.3 ==> r->Ok_0.val() == st.0)
            &&& (!st.3 ==> r == Err::<Mersenne31, FriError>(FriError::CommitPhaseMmcsError))
        }),
{
    let ghost betasv = seq_vals(betas@);
    let ghost commitsv = rows_vals(commits@);
    let ghost rov = ro_vals(reduced_openings@);
    let mut folded_eval = Mersenne31::zero();
    let mut index = start_index;
    let mut ro_idx: usize = 0;
    let steps: usize = if commits.len() < openings.len() {
        commits.len()
    } else {
        openings.len()
    };
    let mut s: usize = 0;
    while s < steps
        invariant
            0 <= s <= steps,
            steps <= commits@.len(),
            steps <= openings@.len(),
            steps == (if commits@.len() < openings@.len() {
                commits@.len()
            } else {
                openings@.len()
            }),
            betas@.len() == commits@.len(),
            commits@.len() <= log_max_height,
            log_max_height <= 30,
            ro_idx <= reduced_openings@.len(),
            betasv == seq_vals(betas@),
            commitsv == rows_vals(commits@),
            rov == ro_vals(reduced_openings@),
            ({
                let st = spec_query_fold(
                    g,
                    &config.mmcs,
                    start_index as nat,
                    betasv,
                    commitsv,
                    openings@,
                    rov,
                    log_max_height as nat,
                    s as nat,
                );
                st.3 && st.0 == folded_eval.val() && st.1 == index && st.2 == ro_idx
            }),
        decreases steps - s,
    {
        let log_folded_height = log_max_height - 1 - s;
        if ro_idx < reduced_openings.len() {
            let entry = reduced_openings[ro_idx];
            if entry.0 == log_folded_height + 1 {
                folded_eval = folded_eval.add(entry.1);
                ro_idx = ro_idx + 1;
            }
        }
        let sibling_pos: usize = if index % 2 == 0 {
            1
        } else {
            0
        };
        let index_pair = index >> 1usize;
        proof {
            vstd::bits::lemma_usize_shr_is_div(index, 1usize);
            vstd::arithmetic::power2::lemma2_to64();
        }

        let mut evals: Vec<Mersenne31> = Vec::new();
        evals.push(folded_eval);
        evals.push(folded_eval);
        evals.set(sibling_pos, openings[s].sibling_value);

        proof {
            vstd::bits::lemma_usize_pow2_no_overflow(log_folded_height as nat);
            vstd::bits::lemma_usize_shl_is_mul(1usize, log_folded_height);
        }
        let height: usize = 1usize << log_folded_height;
        let ok = config.mmcs.verify_batch(
            &commits[s],
            2,
            height,
            index_pair,
            &evals,
            &openings[s].opening_proof,
        );
        proof {
            let st1 = spec_query_fold(
                g,
                &config.mmcs,
                start_index as nat,
                betasv,
                commitsv,
                openings@,
                rov,
                log_max_height as nat,
                (s + 1) as nat,
            );
            assert(seq_vals(evals@) =~= (if index % 2 == 0 {
                seq![folded_eval.val(), openings@[s as int].sibling_value.val()]
            } else {
                seq![openings@[s as int].sibling_value.val(), folded_eval.val()]
            }));
            assert(commitsv[s as int] == seq_vals(commits@[s as int]@));
            if !ok {
                assert(!st1.3);
                lemma_query_fold_stuck(
                    g,
                    &config.mmcs,
                    start_index as nat,
                    betasv,
                    commitsv,
                    openings@,
                    rov,
                    log_max_height as nat,
                    (s + 1) as nat,
                    steps as nat,
                );
            }
        }
        if !ok {
            return Err(FriError::CommitPhaseMmcsError);
        }

        index = index_pair;
        let e0 = evals[0];
        let e1 = evals[1];
        folded_eval = g.fold_row(index, log_folded_height, betas[s], e0, e1);
        s = s + 1;
    }
    Ok(folded_eval)
}

/// Verify a FRI proof.  The contract states the whole protocol through
/// `spec_verify`: the transcript is advanced exactly as the commit, shape,
/// proof-of-work and query phases dictate, and the result is the first
/// failure in that order — `InvalidProofShape` exactly when the number of
/// query proofs differs from the configured number of queries,
/// `InvalidPowWitness` when the grinding witness fails the transcript
/// check, `CommitPhaseMmcsError` when a commit-phase opening fails,
/// `FinalPolyMismatch` when a query folds to something other than the
/// claimed final polynomial.
pub fn verify<G: FriFolding, M: FriMmcs, C: FriChallenger>(
    g: &G,
    config: &FriConfig<M>,
    proof: &FriProof,
    challenger: &mut C,
) -> (r: Result<(), FriError>)
    requires
        // index sampling draws `log_max_height + extra` bits: the
        // challenger supports at most 30 (indices fit a machine word) and
        // the folding rule may consume up to 10 of them
        proof.commit_phase_commits@.len() + config.log_blowup <= 30 - 10,
    ensures
        ({
            let out = spec_verify(g, config, proof, *old(challenger));
            &&& *final(challenger) == out.0
            &&& r == out.1
        }),
        (proof.query_proofs@.len() != config.num_queries) <==> r == Err::<(), FriError>(
            FriError::InvalidProofShape,
        ),
        r is Ok ==> proof.query_proofs@.len() == config.num_queries,
{
    let ghost ch0 = *old(challenger);
    let ghost cviews = rows_vals(proof.commit_phase_commits@);

    // Observe every commit-phase commitment and draw its folding challenge.
    let mut betas: Vec<Mersenne31> = Vec::new();
    let n_commits = proof.commit_phase_commits.len();
    let mut i: usize = 0;
    while i < n_commits
        invariant
            0 <= i <= n_commits,
            n_commits == proof.commit_phase_commits@.len(),
            cviews == rows_vals(proof.commit_phase_commits@),
            betas@.len() == i,
            ({
                let ob = spec_observe_phase(ch0, cviews, i as nat);
                *challenger == ob.0 && seq_vals(betas@) == ob.1
            }),
        decreases n_commits - i,
    {
        proof {
            assert(seq_vals(proof.commit_phase_commits@[i as int]@) == cviews[i as int]);
        }
        challenger.observe_commitment(&proof.commit_phase_commits[i]);
        let beta = challenger.sample();
        betas.push(beta);
        proof {
            let ob = spec_observe_phase(ch0, cviews, (i + 1) as nat);
            assert(seq_vals(betas@) =~= ob.1);
        }
        i = i + 1;
    }
    let ghost ob = spec_observe_phase(ch0, cviews, n_commits as nat);

    if proof.query_proofs.len() != config.num_queries {
        return Err(FriError::InvalidProofShape);
    }

    // Check the proof-of-work witness.
    let pow_ok = challenger.check_witness(config.proof_of_work_bits, proof.pow_witness);
    if !pow_ok {
        return Err(FriError::InvalidPowWitness);
    }
    let ghost base_ch = ob.0.spec_check_witness(
        config.proof_of_work_bits as nat,
        proof.pow_witness,
    ).0;

    let log_max_height = proof.commit_phase_commits.len() + config.log_blowup;

    let n_queries = proof.query_proofs.len();
    let mut q: usize = 0;
    while q < n_queries
        invariant
            0 <= q <= n_queries,
            n_queries == proof.query_proofs@.len(),
            n_queries == config.num_queries,
            ch0 == *old(challenger),
            betas@.len() == proof.commit_phase_commits@.len(),
            seq_vals(betas@) == ob.1,
            ob == spec_observe_phase(ch0, cviews, proof.commit_phase_commits@.len()),
            cviews == rows_vals(proof.commit_phase_commits@),
            base_ch == ob.0.spec_check_witness(
                config.proof_of_work_bits as nat,
                proof.pow_witness,
            ).0,
            ob.0.spec_check_witness(config.proof_of_work_bits as nat, proof.pow_witness).1,
            log_max_height == proof.commit_phase_commits@.len() + config.log_blowup,
            log_max_height <= 20,
            ({
                let qp = spec_query_phase(
                    g,
                    &config.mmcs,
                    base_ch,
                    *proof,
                    ob.1,
                    log_max_height as nat,
                    q as nat,
                );
                *challenger == qp.0 && qp.1 == Ok::<(), FriError>(())
            }),
        decreases n_queries - q,
    {
        let ghost ch_before = *challenger;
        let extra = g.extra_query_index_bits();
        let index = challenger.sample_bits(log_max_height + extra);
        let qp = &proof.query_proofs[q];
        let ro = g.open_input(index, &qp.input_proof);

        let shifted = index >> extra;
        proof {
            vstd::bits::lemma_usize_shr_is_div(index, extra);
        }

        let folded = verify_query(
            g,
            config,
            shifted,
            &betas,
            &proof.commit_phase_commits,
            &qp.commit_phase_openings,
            &ro,
            log_max_height,
        );
        let ghost qphn = spec_query_phase(
            g,
            &config.mmcs,
            base_ch,
            *proof,
            ob.1,
            log_max_height as nat,
            (q + 1) as nat,
        );
        proof {
            // the iteration mirrors one unfolding of the query phase
            let s1 = ch_before.spec_sample_bits((log_max_height + extra) as nat);
            assert(*challenger == s1.0 && index == s1.1);
            let qpg = proof.query_proofs@[q as int];
            assert(seq_vals(qp.input_proof@) == seq_vals(qpg.input_proof@));
            assert(ro_vals(ro@) == g.spec_open_input(index as nat, seq_vals(qpg.input_proof@)));
            assert(shifted == s1.1 / pow2(g.spec_extra_bits()));
            let steps: nat = if proof.commit_phase_commits@.len()
                < qpg.commit_phase_openings@.len() {
                proof.commit_phase_commits@.len()
            } else {
                qpg.commit_phase_openings@.len()
            };
            let st = spec_query_fold(
                g,
                &config.mmcs,
                shifted as nat,
                seq_vals(betas@),
                rows_vals(proof.commit_phase_commits@),
                qpg.commit_phase_openings@,
                ro_vals(ro@),
                log_max_height as nat,
                steps,
            );
            if !st.3 {
                assert(qphn == (s1.0, Err::<(), FriError>(FriError::CommitPhaseMmcsError)));
                lemma_query_phase_stuck(
                    g,
                    &config.mmcs,
                    base_ch,
                    *proof,
                    ob.1,
                    log_max_height as nat,
                    (q + 1) as nat,
                    n_queries as nat,
                );
            } else if st.0 != proof.final_poly.val() {
                assert(qphn == (s1.0, Err::<(), FriError>(FriError::FinalPolyMismatch)));
                lemma_query_phase_stuck(
                    g,
                    &config.mmcs,
                    base_ch,
                    *proof,
                    ob.1,
                    log_max_height as nat,
                    (q + 1) as nat,
                    n_queries as nat,
                );
            } else {
                assert(qphn == (s1.0, Ok::<(), FriError>(())));
            }
        }
        match folded {
            Result::Err(e) => {
                return Err(e);
            },
            Result::Ok(v) => {
                if !v.equals(proof.final_poly) {
                    return Err(FriError::FinalPolyMismatch);
                }
            },
        }
        q = q + 1;
    }
    Ok(())
}

} // verus!
