//! Tests of the FRI verifier, against a small concrete challenger, a
//! Merkle-style commitment scheme, and a linear folding rule, with an
//! honestly constructed proof and its single-flaw mutations.

use circle_stark::fri::{
    verify, CommitPhaseProofStep, FriChallenger, FriConfig, FriError, FriFolding, FriMmcs,
    FriProof, QueryProof,
};
use circle_stark::Mersenne31;

fn mix(h: u64, x: u64) -> u64 {
    (h ^ x).wrapping_mul(0x9E37_79B9_7F4A_7C15).rotate_left(31)
}

fn digest(h: u64) -> Vec<Mersenne31> {
    vec![
        Mersenne31::new((h & 0xffff_ffff) as u32),
        Mersenne31::new((h >> 32) as u32),
    ]
}

fn absorb(h: u64, xs: &Vec<Mersenne31>) -> u64 {
    let mut acc = h;
    for x in xs {
        acc = mix(acc, x.as_canonical_u32() as u64);
    }
    acc
}

fn hash_row(row: &Vec<Mersenne31>) -> Vec<Mersenne31> {
    digest(absorb(0xabc_def, row))
}

fn hash_pair(l: &Vec<Mersenne31>, r: &Vec<Mersenne31>) -> Vec<Mersenne31> {
    digest(absorb(absorb(0x123_456, l), r))
}

/// A Merkle tree over rows: levels of digests, pairwise combined.
struct Tree {
    levels: Vec<Vec<Vec<Mersenne31>>>,
}

fn commit(rows: &Vec<Vec<Mersenne31>>) -> Tree {
    let mut level: Vec<Vec<Mersenne31>> = rows.iter().map(hash_row).collect();
    let mut levels = vec![level.clone()];
    while level.len() > 1 {
        let mut next = Vec::new();
        for i in 0..level.len() / 2 {
            next.push(hash_pair(&level[2 * i], &level[2 * i + 1]));
        }
        level = next;
        levels.push(level.clone());
    }
    Tree { levels }
}

fn root(t: &Tree) -> Vec<Mersenne31> {
    t.levels.last().unwrap()[0].clone()
}

fn open(t: &Tree, mut index: usize) -> Vec<Vec<Mersenne31>> {
    let mut path = Vec::new();
    for level in &t.levels[..t.levels.len() - 1] {
        path.push(level[index ^ 1].clone());
        index >>= 1;
    }
    path
}

struct TestMmcs;

impl FriMmcs for TestMmcs {
    fn verify_batch(
        &self,
        comm: &Vec<Mersenne31>,
        _width: usize,
        _height: usize,
        index: usize,
        opened_row: &Vec<Mersenne31>,
        proof: &Vec<Vec<Mersenne31>>,
    ) -> bool {
        let mut h = hash_row(opened_row);
        let mut idx = index;
        for sib in proof {
            h = if idx % 2 == 0 {
                hash_pair(&h, sib)
            } else {
                hash_pair(sib, &h)
            };
            idx >>= 1;
        }
        &h == comm
    }
}

#[derive(Clone)]
struct TestChallenger {
    h: u64,
}

impl TestChallenger {
    fn new() -> Self {
        TestChallenger { h: 0x5151_5151 }
    }
}

impl FriChallenger for TestChallenger {
    fn observe_commitment(&mut self, comm: &Vec<Mersenne31>) {
        self.h = absorb(self.h, comm);
    }

    fn sample(&mut self) -> Mersenne31 {
        self.h = mix(self.h, 1);
        Mersenne31::new(self.h as u32)
    }

    fn sample_bits(&mut self, bits: usize) -> usize {
        self.h = mix(self.h, 2);
        (self.h as usize) & ((1usize << bits) - 1)
    }

    fn check_witness(&mut self, bits: usize, witness: u64) -> bool {
        self.h = mix(self.h, witness);
        self.sample_bits(bits) == 0
    }
}

struct TestFolding;

impl FriFolding for TestFolding {
    fn extra_query_index_bits(&self) -> usize {
        0
    }

    fn fold_row(
        &self,
        _index: usize,
        _log_height: usize,
        beta: Mersenne31,
        e0: Mersenne31,
        e1: Mersenne31,
    ) -> Mersenne31 {
        e0.add(beta.mul(e1.sub(e0)))
    }

    fn open_input(
        &self,
        _index: usize,
        input_proof: &Vec<Mersenne31>,
    ) -> Vec<(usize, Mersenne31)> {
        // The input layer contributes one reduced opening at the maximum
        // height: the committed constant itself.
        vec![(4, input_proof[0])]
    }
}

/// Builds an honest proof of the constant codeword `c`: every commit-phase
/// layer is the constant vector, so each fold reproduces the constant and
/// the final polynomial is the constant.
fn honest_proof(config: &FriConfig<TestMmcs>, n_commits: usize, c: Mersenne31) -> FriProof {
    let log_max_height = n_commits + config.log_blowup;
    let mut trees = Vec::new();
    let mut commits = Vec::new();
    let mut ch = TestChallenger::new();
    for s in 0..n_commits {
        let height = 1usize << (log_max_height - 1 - s);
        let rows: Vec<Vec<Mersenne31>> = (0..height).map(|_| vec![c, c]).collect();
        let tree = commit(&rows);
        let r = root(&tree);
        ch.observe_commitment(&r);
        let _beta = ch.sample();
        commits.push(r);
        trees.push(tree);
    }
    // Grind the proof-of-work witness.
    let mut pow_witness = 0u64;
    loop {
        let mut trial = ch.clone();
        if trial.check_witness(config.proof_of_work_bits, pow_witness) {
            break;
        }
        pow_witness += 1;
    }
    ch.check_witness(config.proof_of_work_bits, pow_witness);
    // Answer every query.
    let mut query_proofs = Vec::new();
    for _ in 0..config.num_queries {
        let sampled = ch.sample_bits(log_max_height);
        let mut index = sampled;
        let mut openings = Vec::new();
        for tree in trees.iter() {
            let pair = index >> 1;
            openings.push(CommitPhaseProofStep {
                sibling_value: c,
                opening_proof: open(tree, pair),
            });
            index = pair;
        }
        query_proofs.push(QueryProof { input_proof: vec![c], commit_phase_openings: openings });
    }
    FriProof { commit_phase_commits: commits, query_proofs, final_poly: c, pow_witness }
}

fn config(pow_bits: usize) -> FriConfig<TestMmcs> {
    FriConfig { log_blowup: 1, num_queries: 8, proof_of_work_bits: pow_bits, mmcs: TestMmcs }
}

#[test]
fn fri_honest_proof_verifies() {
    let cfg = config(0);
    let c = Mersenne31::new(777_777);
    let proof = honest_proof(&cfg, 3, c);
    let mut ch = TestChallenger::new();
    assert_eq!(verify(&TestFolding, &cfg, &proof, &mut ch), Ok(()));
}

#[test]
fn fri_final_poly_mismatch() {
    let cfg = config(0);
    let c = Mersenne31::new(777_777);
    let mut proof = honest_proof(&cfg, 3, c);
    proof.final_poly = proof.final_poly.add(Mersenne31::one());
    let mut ch = TestChallenger::new();
    assert_eq!(
        verify(&TestFolding, &cfg, &proof, &mut ch),
        Err(FriError::FinalPolyMismatch)
    );
}

#[test]
fn fri_invalid_proof_shape() {
    let cfg = config(0);
    let c = Mersenne31::new(777_777);
    let mut proof = honest_proof(&cfg, 3, c);
    proof.query_proofs.pop();
    let mut ch = TestChallenger::new();
    assert_eq!(
        verify(&TestFolding, &cfg, &proof, &mut ch),
        Err(FriError::InvalidProofShape)
    );
}

#[test]
fn fri_sibling_flip_fails_commit_phase() {
    let cfg = config(0);
    let c = Mersenne31::new(777_777);
    let mut proof = honest_proof(&cfg, 3, c);
    let flipped = proof.query_proofs[0].commit_phase_openings[0].sibling_value.add(
        Mersenne31::one(),
    );
    proof.query_proofs[0].commit_phase_openings[0].sibling_value = flipped;
    let mut ch = TestChallenger::new();
    assert_eq!(
        verify(&TestFolding, &cfg, &proof, &mut ch),
        Err(FriError::CommitPhaseMmcsError)
    );
}

#[test]
fn fri_invalid_pow_witness() {
    let cfg = config(8);
    let c = Mersenne31::new(99_999);
    let mut proof = honest_proof(&cfg, 3, c);
    // Honest grinding verifies.
    let mut ch = TestChallenger::new();
    assert_eq!(verify(&TestFolding, &cfg, &proof, &mut ch), Ok(()));
    // Any witness that fails the transcript check is rejected; find one.
    let honest = proof.pow_witness;
    let mut bad = honest ^ 1;
    loop {
        let mut probe = TestChallenger::new();
        for comm in &proof.commit_phase_commits {
            probe.observe_commitment(comm);
            let _ = probe.sample();
        }
        if !probe.check_witness(cfg.proof_of_work_bits, bad) {
            break;
        }
        bad += 1;
    }
    proof.pow_witness = bad;
    let mut ch2 = TestChallenger::new();
    assert_eq!(
        verify(&TestFolding, &cfg, &proof, &mut ch2),
        Err(FriError::InvalidPowWitness)
    );
}
