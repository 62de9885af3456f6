//! Tests of the Poseidon2 permutation, the Blake3 column schema, and the
//! Mersenne-31 inverse-FFT kernels.

use circle_stark::blake3::{Blake3Cols, NUM_BLAKE3_COLS};
use circle_stark::poseidon2::{exp_small, Poseidon2};
use circle_stark::Mersenne31;
use rand::{Rng, SeedableRng};

fn rand_m31(rng: &mut rand::rngs::StdRng) -> Mersenne31 {
    Mersenne31::new(rng.gen::<u32>())
}

fn mersenne31_diag16() -> Vec<Mersenne31> {
    // The shape the internal layer calls for: [-2, 1, 2, 1/2, 3, 4, -1/2,
    // -3, -4], then inverse powers of two, positive and negative.
    let half = Mersenne31::new(2).inverse();
    let mut diag = vec![
        Mersenne31::new(2).neg(),
        Mersenne31::one(),
        Mersenne31::new(2),
        half,
        Mersenne31::new(3),
        Mersenne31::new(4),
        half.neg(),
        Mersenne31::new(3).neg(),
        Mersenne31::new(4).neg(),
    ];
    let mut inv_pow = Mersenne31::new(8).inverse();
    for k in 0..7 {
        if k < 4 {
            diag.push(inv_pow);
        } else {
            diag.push(inv_pow.neg());
        }
        inv_pow = inv_pow.mul(half);
    }
    diag
}

#[test]
fn poseidon2_deterministic() {
    let mut rng = rand::rngs::StdRng::seed_from_u64(11);
    let p: Poseidon2<16, 5> = Poseidon2::new_from_rng(8, 14, mersenne31_diag16(), &mut rng);
    let mut s1: Vec<Mersenne31> = (0..16).map(|i| Mersenne31::new(i)).collect();
    let mut s2 = s1.clone();
    p.permute_mut(&mut s1);
    p.permute_mut(&mut s2);
    assert_eq!(s1, s2, "the permutation is a function of its input");
    let zero_state: Vec<Mersenne31> = (0..16).map(|i| Mersenne31::new(i)).collect();
    assert_ne!(s1, zero_state, "the permutation moves the state");
}

#[test]
fn poseidon2_injective_on_samples() {
    let mut rng = rand::rngs::StdRng::seed_from_u64(12);
    let p: Poseidon2<16, 5> = Poseidon2::new_from_rng(8, 14, mersenne31_diag16(), &mut rng);
    let mut outputs: Vec<Vec<Mersenne31>> = Vec::new();
    for _ in 0..50 {
        let mut s: Vec<Mersenne31> = (0..16).map(|_| rand_m31(&mut rng)).collect();
        p.permute_mut(&mut s);
        for prev in &outputs {
            assert_ne!(prev, &s, "distinct inputs give distinct outputs");
        }
        outputs.push(s);
    }
}

#[test]
fn poseidon2_seeds_differ() {
    // Through the public permutation this checks that the random draw
    // really consults the generator: two seeds give different constants.
    let mut rng1 = rand::rngs::StdRng::seed_from_u64(1);
    let mut rng2 = rand::rngs::StdRng::seed_from_u64(2);
    let p1: Poseidon2<16, 5> = Poseidon2::new_from_rng(8, 14, mersenne31_diag16(), &mut rng1);
    let p2: Poseidon2<16, 5> = Poseidon2::new_from_rng(8, 14, mersenne31_diag16(), &mut rng2);
    let mut s1: Vec<Mersenne31> = vec![Mersenne31::new(0); 16];
    let mut s2 = s1.clone();
    p1.permute_mut(&mut s1);
    p2.permute_mut(&mut s2);
    assert_ne!(s1, s2);
}

#[test]
fn exp_small_matches_powers() {
    let x = Mersenne31::new(1234567);
    let x3 = exp_small::<3>(x);
    assert_eq!(x3, x.mul(x).mul(x));
    let x5 = exp_small::<5>(x);
    assert_eq!(x5, x.mul(x).mul(x).mul(x).mul(x));
    let x7 = exp_small::<7>(x);
    assert_eq!(x7, x5.mul(x).mul(x));
}

#[test]
fn blake3_cols_flat_round_trip() {
    let mut rng = rand::rngs::StdRng::seed_from_u64(5);
    let mut v: Vec<Mersenne31> = Vec::new();
    for _ in 0..NUM_BLAKE3_COLS {
        v.push(rand_m31(&mut rng));
    }
    let cols = Blake3Cols::from_flat(&v);
    let back = cols.to_flat();
    assert_eq!(back.len(), NUM_BLAKE3_COLS);
    assert_eq!(back, v);
    // Spot-check the layout: the first cells are the first input word, and
    // the chaining values follow all sixteen inputs.
    assert_eq!(cols.inputs[0][0], v[0]);
    assert_eq!(cols.inputs[15][31], v[511]);
    assert_eq!(cols.chaining_values[0][0][0], v[512]);
}

#[test]
fn backward_fft_small_sizes() {
    // The table must hold one (possibly empty) layer per recursion level:
    // the unrolled sizes take their pass twiddles from fixed constants.
    let mut a2: Vec<Mersenne31> = vec![Mersenne31::new(5), Mersenne31::new(9)];
    Mersenne31::backward_fft(&mut a2, &Vec::new());
    let got2: Vec<u32> = a2.iter().map(|x| x.as_canonical_u32()).collect();
    assert_eq!(got2, vec![14, 2147221503]);

    let table4: Vec<Vec<Mersenne31>> = vec![Vec::new()];
    let mut a4: Vec<Mersenne31> = (1u32..=4).map(Mersenne31::new).collect();
    Mersenne31::backward_fft(&mut a4, &table4);
    let got4: Vec<u32> = a4.iter().map(|x| x.as_canonical_u32()).collect();
    assert_eq!(got4, vec![10, 2147352575, 330016066, 0]);

    let table8: Vec<Vec<Mersenne31>> = vec![Vec::new(), Vec::new()];
    let mut a8: Vec<Mersenne31> = (1u32..=8).map(Mersenne31::new).collect();
    Mersenne31::backward_fft(&mut a8, &table8);
    let got8: Vec<u32> = a8.iter().map(|x| x.as_canonical_u32()).collect();
    assert_eq!(got8, vec![36, 2147221503, 660032132, 0, 760769287, 0, 0, 0]);
}

#[test]
fn field_arithmetic_edges() {
    let p_minus_1 = Mersenne31::new(0x7fff_fffe);
    assert_eq!(p_minus_1.add(Mersenne31::one()).as_canonical_u32(), 0);
    assert_eq!(Mersenne31::new(0x7fff_ffff).as_canonical_u32(), 0);
    assert_eq!(Mersenne31::zero().sub(Mersenne31::one()).as_canonical_u32(), 0x7fff_fffe);
    let x = Mersenne31::new(123456789);
    assert_eq!(x.mul(x.inverse()).as_canonical_u32(), 1);
    assert_eq!(x.exp_u64(3), x.mul(x).mul(x));
}

#[test]
fn blake3_sum_constraint() {
    // A concrete modular-addition witness: out = a + b + m mod 2^32 with
    // a = 0xDEADBEEF, b = 0x12345678, m = 0x0F0F0F0F, out = 0xFFF12476,
    // carry_32 = 0 and carry_16 = 1.
    let limbs = |lo: u32, hi: u32| [Mersenne31::new(lo), Mersenne31::new(hi)];
    let bits = |word: u32| {
        let mut out = [Mersenne31::new(0); 32];
        for i in 0..32 {
            out[i] = Mersenne31::new((word >> i) & 1);
        }
        out
    };
    let a = limbs(48879, 57005);
    let b = bits(0x1234_5678);
    let m = limbs(3855, 3855);
    let out = limbs(9334, 65521);
    let aux = [Mersenne31::new(0), Mersenne31::new(1)];
    assert!(circle_stark::blake3::check_sum_constraint(&a, &b, &m, &out, &aux));
    // A wrong carry witness breaks the constraint.
    let bad_aux = [Mersenne31::new(1), Mersenne31::new(1)];
    assert!(!circle_stark::blake3::check_sum_constraint(&a, &b, &m, &out, &bad_aux));
    // A wrong output breaks it too.
    let bad_out = limbs(9335, 65521);
    assert!(!circle_stark::blake3::check_sum_constraint(&a, &b, &m, &bad_out, &aux));
}
